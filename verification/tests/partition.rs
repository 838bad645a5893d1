use std::collections::HashSet;

use onnx_runtime_ir::{DataType, Graph, Node, NodeId};
use onnxruntime_mlx::bitset::bit_intersects;
use onnxruntime_mlx::boundary::infer_boundary_indices;
use onnxruntime_mlx::cluster::cluster_edges;
use onnxruntime_mlx::partition::{
    build_contiguous_clusters, build_convex_clusters, infer_layer_boundary_values,
    split_annotated_layer_clusters,
};
use onnxruntime_mlx::registry::CompilePartitionClass::{Eager, ShapeKeyed, Shapeless};
use onnxruntime_mlx::registry::CompileShapeSafety;
use onnxruntime_mlx::span::select_layer_partition_span;

fn chain(n: usize) -> (Vec<Vec<usize>>, Vec<Vec<usize>>) {
    let mut succ = vec![Vec::new(); n];
    let mut pred = vec![Vec::new(); n];
    for index in 0..n.saturating_sub(1) {
        succ[index].push(index + 1);
        pred[index + 1].push(index);
    }
    (succ, pred)
}

fn edges(n: usize, list: &[(usize, usize)]) -> (Vec<Vec<usize>>, Vec<Vec<usize>>) {
    let mut succ = vec![Vec::new(); n];
    let mut pred = vec![Vec::new(); n];
    for &(from, to) in list {
        succ[from].push(to);
        pred[to].push(from);
    }
    (succ, pred)
}

fn ids(list: &[NodeId]) -> Vec<u32> {
    list.iter().map(|id| id.0).collect()
}

#[test]
fn convex_clustering_preserves_colours_and_contiguity() {
    let n = 8;
    let (succ, pred) = chain(n);
    let supported = vec![true; n];
    let float64 = vec![false, false, true, true, true, true, false, false];
    assert_eq!(
        cluster_edges(&supported, &float64, &vec![Shapeless; n], &succ, &pred),
        vec![vec![0, 1], vec![2, 3, 4, 5], vec![6, 7]]
    );
    let order = (0..n).map(|index| index as u32).collect::<Vec<_>>();
    assert_eq!(
        build_contiguous_clusters(&order, &supported, &float64, &vec![Shapeless; n]),
        vec![vec![0, 1], vec![2, 3, 4, 5], vec![6, 7]]
    );
}

#[test]
fn ir_topology_matches_legacy_adjacency_clustering() {
    let mut graph = Graph::new();
    let input = graph.create_named_value("input", DataType::Float32, Vec::new());
    let values = (0..5)
        .map(|index| {
            graph.create_named_value(format!("value_{index}"), DataType::Float32, Vec::new())
        })
        .collect::<Vec<_>>();
    let mut previous = input;
    for output in &values {
        graph.insert_node(Node::new(
            NodeId(0),
            "Identity",
            vec![Some(previous)],
            vec![*output],
        ));
        previous = *output;
    }
    let order = ids(&graph.topological_order().unwrap());
    let (successors, predecessors) = chain(order.len());
    let supported = vec![true; order.len()];
    let float64 = vec![false, true, true, false, false];
    let classes = vec![Shapeless; order.len()];
    let legacy = cluster_edges(&supported, &float64, &classes, &successors, &predecessors);
    let ir = build_convex_clusters(&graph, &order, &supported, &float64, &classes)
        .into_iter()
        .map(|cluster| {
            cluster
                .into_iter()
                .map(|node| {
                    order
                        .iter()
                        .position(|&candidate| candidate == node)
                        .unwrap()
                })
                .collect::<Vec<_>>()
        })
        .collect::<Vec<_>>();
    assert_eq!(ir, legacy);
    assert_eq!(ir, vec![vec![0], vec![1, 2], vec![3, 4]]);
}

#[test]
fn compile_boundaries_remain_separate() {
    let (succ, pred) = chain(5);
    assert_eq!(
        cluster_edges(
            &vec![true; 5],
            &vec![false; 5],
            &[Shapeless, ShapeKeyed, Eager, ShapeKeyed, Shapeless],
            &succ,
            &pred,
        ),
        vec![vec![0], vec![1], vec![2], vec![3], vec![4]]
    );
}

#[test]
fn uniformly_coloured_graphs_remain_maximal() {
    let (succ, pred) = chain(8);
    assert_eq!(
        cluster_edges(
            &vec![true; 8],
            &vec![false; 8],
            &vec![Shapeless; 8],
            &succ,
            &pred,
        ),
        vec![(0..8).collect::<Vec<_>>()]
    );
    let succ = vec![vec![1, 2], vec![3], vec![3], vec![]];
    let pred = vec![vec![], vec![0], vec![0], vec![1, 2]];
    assert_eq!(
        cluster_edges(
            &vec![true; 4],
            &vec![true; 4],
            &vec![Shapeless; 4],
            &succ,
            &pred,
        ),
        vec![vec![0, 1, 2, 3]]
    );
}

#[test]
fn shape_keyed_regions_and_contiguous_fallback_preserve_boundaries() {
    let (succ, pred) = chain(5);
    assert_eq!(
        cluster_edges(
            &vec![true; 5],
            &vec![false; 5],
            &[Shapeless, Shapeless, ShapeKeyed, Shapeless, Shapeless],
            &succ,
            &pred,
        ),
        vec![vec![0, 1], vec![2], vec![3, 4]]
    );
    let order = (0..5).map(|index| index as u32).collect::<Vec<_>>();
    assert_eq!(
        build_contiguous_clusters(
            &order,
            &vec![true; 5],
            &vec![false; 5],
            &[Shapeless, ShapeKeyed, ShapeKeyed, Shapeless, Shapeless],
        ),
        vec![vec![0], vec![1, 2], vec![3, 4]]
    );
}

#[test]
fn structural_boundaries_use_the_last_residual_add() {
    let layers = 24;
    let mut op_types = Vec::new();
    let mut successors = Vec::new();
    let mut predecessors = Vec::new();
    let mut anchors = Vec::new();
    for _ in 0..layers {
        let anchor = op_types.len();
        anchors.push(anchor);
        op_types.extend(["GroupQueryAttention", "Add", "MatMul", "Add"].map(String::from));
        successors.extend([vec![], vec![], vec![], vec![]]);
        predecessors.extend([vec![], vec![], vec![], vec![]]);
    }
    for &anchor in anchors.iter().take(layers - 1) {
        let next = anchor + 4;
        for (from, to) in [
            (anchor, anchor + 1),
            (anchor + 1, anchor + 2),
            (anchor + 2, anchor + 3),
            (anchor + 3, next),
        ] {
            successors[from].push(to);
            predecessors[to].push(from);
        }
    }
    let boundaries =
        infer_boundary_indices(&op_types, &successors, &predecessors, &anchors).unwrap();
    assert_eq!(boundaries.len(), layers - 1);
    assert_eq!(boundaries[0], 3);
    assert_eq!(boundaries[layers - 2], (layers - 2) * 4 + 3);
}

#[test]
fn few_or_detached_anchors_give_no_boundaries() {
    let op_types = vec!["Add".to_string(), "Add".to_string()];
    let none: Vec<Vec<usize>> = vec![vec![], vec![]];
    assert_eq!(infer_boundary_indices(&op_types, &none, &none, &[]), None);
    let (succ, pred) = edges(2, &[]);
    assert_eq!(infer_boundary_indices(&op_types, &succ, &pred, &[0, 1]), None);
}

#[test]
fn a_detour_through_an_unsupported_node_stays_convex() {
    // 0 -> 1 -> 2 and 0 -> 2, where 1 is not supported: merging 0 and 2 would close a cycle.
    let (succ, pred) = edges(3, &[(0, 1), (1, 2), (0, 2)]);
    assert_eq!(
        cluster_edges(
            &[true, false, true],
            &[false; 3],
            &[Shapeless; 3],
            &succ,
            &pred
        ),
        vec![vec![0], vec![2]]
    );
}

#[test]
fn clusters_that_block_each_other_lose_the_first() {
    // Two colours that feed each other crosswise: contracting both would close a cycle.
    let (succ, pred) = edges(4, &[(0, 3), (1, 2), (0, 2), (1, 3)]);
    let clusters = cluster_edges(
        &[true; 4],
        &[false, true, false, true],
        &[Shapeless; 4],
        &succ,
        &pred,
    );
    assert_eq!(clusters, vec![vec![1, 3]]);
}

#[test]
fn degrees_that_are_too_small_disturb_the_order() {
    // 0 -> 1 -> 3 -> 2 and 0 -> 2, where 1 and 3 are not supported.
    let (succ, mut pred) = edges(4, &[(0, 1), (0, 2), (1, 3), (3, 2)]);
    let supported = [true, false, true, false];
    let grown = |pred: &Vec<Vec<usize>>| {
        cluster_edges(&supported, &[false; 4], &[Shapeless; 4], &succ, pred)
    };
    assert_eq!(grown(&pred), vec![vec![0], vec![2]]);
    // Unseen predecessors let 3 and 1 be visited before 0, so the detour is overlooked when 0 and
    // 2 are merged; their cluster then waits for itself and is given up.
    pred[1].clear();
    pred[3].clear();
    assert!(grown(&pred).is_empty());
    // A degree that is too large keeps its node from being visited.
    let (succ, mut pred) = edges(3, &[(0, 1), (1, 2)]);
    pred[1].push(2);
    assert_eq!(
        cluster_edges(&[true; 3], &[false; 3], &[Shapeless; 3], &succ, &pred),
        vec![vec![0, 1, 2]]
    );
}

#[test]
fn both_groupings_agree_on_a_chain() {
    let n = 7;
    let (succ, pred) = chain(n);
    let supported = [true, true, false, true, true, true, true];
    let float64 = [false, false, false, false, true, true, true];
    let classes = [
        Shapeless, Shapeless, Shapeless, Shapeless, Shapeless, Shapeless, Eager,
    ];
    let grown = cluster_edges(&supported, &float64, &classes, &succ, &pred);
    assert_eq!(grown, vec![vec![0, 1], vec![3], vec![4, 5], vec![6]]);
    let order: Vec<u32> = (10..10 + n as u32).collect();
    let runs = build_contiguous_clusters(&order, &supported, &float64, &classes);
    let placed: Vec<Vec<u32>> = grown
        .iter()
        .map(|cluster| cluster.iter().map(|&at| order[at]).collect())
        .collect();
    assert_eq!(runs, placed);
}

#[test]
fn sets_of_different_width_are_compared_as_far_as_both_go() {
    let narrow: Vec<u64> = vec![0b100];
    let wide: Vec<u64> = vec![0b110, 1];
    let high: Vec<u64> = vec![0b011, 1];
    assert!(bit_intersects(&narrow, &wide));
    assert!(bit_intersects(&wide, &narrow));
    assert!(!bit_intersects(&narrow, &high));
    assert!(!bit_intersects(&high, &narrow));
    assert!(bit_intersects(&wide, &high));
    assert!(!bit_intersects(&wide, &vec![]));
    assert!(!bit_intersects(&vec![], &wide));
}

#[test]
fn nothing_supported_gives_no_cluster() {
    let (succ, pred) = chain(3);
    let clusters = cluster_edges(&[false; 3], &[false; 3], &[Eager; 3], &succ, &pred);
    assert!(clusters.is_empty());
    assert!(build_contiguous_clusters(&[0, 1, 2], &[false; 3], &[false; 3], &[Eager; 3]).is_empty());
    assert!(cluster_edges(&[], &[], &[], &[], &[]).is_empty());
}

fn two_layer_graph() -> Graph {
    let mut graph = Graph::new();
    let mut previous = graph.create_named_value("input", DataType::Float32, Vec::new());
    for (index, op) in ["GroupQueryAttention", "MatMul", "Add", "GroupQueryAttention", "Add"]
        .into_iter()
        .enumerate()
    {
        let output = graph.create_named_value(format!("v{index}"), DataType::Float32, Vec::new());
        graph.insert_node(Node::new(NodeId(0), op, vec![Some(previous)], vec![output]));
        previous = output;
    }
    graph
}

#[test]
fn layer_boundaries_are_the_outputs_of_the_last_add() {
    let graph = two_layer_graph();
    let order = ids(&graph.topological_order().unwrap());
    let values = infer_layer_boundary_values(&graph, &order, &[0, 3]);
    assert_eq!(values, HashSet::from([3]));
    assert!(infer_layer_boundary_values(&graph, &order, &[]).is_empty());
}

#[test]
fn clusters_are_cut_behind_every_boundary() {
    let graph = two_layer_graph();
    let clusters = vec![vec![0, 1, 2, 3, 4]];
    let cuts = HashSet::from([1, 3]);
    assert_eq!(
        split_annotated_layer_clusters(&graph, &clusters, &cuts, 1),
        vec![vec![0], vec![1, 2], vec![3, 4]]
    );
    assert_eq!(
        split_annotated_layer_clusters(&graph, &clusters, &cuts, 2),
        vec![vec![0, 1, 2], vec![3, 4]]
    );
    assert_eq!(
        split_annotated_layer_clusters(&graph, &clusters, &HashSet::new(), 1),
        clusters
    );
}

#[test]
fn safety_decides_the_partition_class() {
    assert_eq!(CompileShapeSafety::Shapeless.partition_class(), Shapeless);
    assert_eq!(CompileShapeSafety::ShapeKeyed.partition_class(), ShapeKeyed);
    assert_eq!(CompileShapeSafety::Eager.partition_class(), Eager);
}

#[test]
fn capability_auto_layer_partition_span_scales_with_decoder_size() {
    assert_eq!(select_layer_partition_span(None, 16), None);
    assert_eq!(select_layer_partition_span(None, 23), Some(4));
    assert_eq!(select_layer_partition_span(None, 24), Some(4));
    assert_eq!(select_layer_partition_span(None, 52), Some(8));
    assert_eq!(select_layer_partition_span(Some("auto"), 80), Some(8));
}

#[test]
fn capability_layer_partition_span_accepts_overrides() {
    assert_eq!(select_layer_partition_span(Some("0"), 52), None);
    assert_eq!(select_layer_partition_span(Some("off"), 52), None);
    assert_eq!(select_layer_partition_span(Some("5"), 52), Some(5));
    assert_eq!(select_layer_partition_span(Some("invalid"), 52), None);
}

#[test]
fn ep_auto_layer_partition_span_scales_with_decoder_size() {
    assert_eq!(select_layer_partition_span(None, 16), None);
    assert_eq!(select_layer_partition_span(None, 23), Some(4));
    assert_eq!(select_layer_partition_span(None, 24), Some(4));
    assert_eq!(select_layer_partition_span(None, 52), Some(8));
    assert_eq!(select_layer_partition_span(Some("auto"), 80), Some(8));
}

#[test]
fn ep_layer_partition_span_accepts_overrides() {
    assert_eq!(select_layer_partition_span(Some("0"), 52), None);
    assert_eq!(select_layer_partition_span(Some("off"), 52), None);
    assert_eq!(select_layer_partition_span(Some("5"), 52), Some(5));
    assert_eq!(select_layer_partition_span(Some("invalid"), 52), None);
}

#[test]
fn span_overrides_are_trimmed_numbers() {
    assert_eq!(select_layer_partition_span(Some(" 6 \n"), 0), Some(6));
    assert_eq!(select_layer_partition_span(Some("+3"), 0), Some(3));
    assert_eq!(select_layer_partition_span(Some("00"), 52), None);
    assert_eq!(select_layer_partition_span(Some("-1"), 52), None);
    assert_eq!(select_layer_partition_span(Some("false"), 52), None);
    assert_eq!(select_layer_partition_span(Some("  "), 30), Some(5));
    assert_eq!(select_layer_partition_span(Some("99999999999999999999999"), 52), None);
}
