use onnxruntime_mlx::capability::{
    get_capability, is_decoder_attention_anchor, snapshot_node_uses_float64, Capability,
    CapabilityFailure, CapabilityQuery, Inspection, RawClaimNode,
};
use onnxruntime_mlx::raw_graph::{RawGraph, RawNode, RawTensor, RawType, RawValueInfo};
use onnxruntime_mlx::registry::CompileShapeSafety;
use onnxruntime_mlx::rejection::{collect_rejections, ClaimFacts};
use onnxruntime_mlx::snapshot::{NodeMetadata, OrtGraphSnapshot};

const FLOAT: u32 = 1;
const DOUBLE: u32 = 11;

fn value_of(name: &str, dtype: u32) -> Option<RawValueInfo> {
    Some(RawValueInfo {
        name: Ok(name.to_string()),
        ty: RawType::Tensor(Ok(RawTensor {
            dtype,
            dims: vec![2],
            symbols: vec![String::new()],
        })),
    })
}

fn value(name: &str) -> Option<RawValueInfo> {
    value_of(name, FLOAT)
}

fn node(
    id: usize,
    domain: &str,
    op: &str,
    inputs: Vec<Option<RawValueInfo>>,
    outputs: Vec<Option<RawValueInfo>>,
) -> RawNode {
    RawNode {
        inputs: Ok(inputs),
        outputs: Ok(outputs),
        id: Ok(id),
        name: Ok(format!("n{id}")),
        domain: Ok(domain.to_string()),
        op_type: Ok(op.to_string()),
        since_version: Ok(1),
        subgraphs: Ok(vec![]),
    }
}

fn graph(nodes: Vec<RawNode>) -> RawGraph {
    RawGraph {
        ir_version: Ok(9),
        opsets: Ok(vec![(String::new(), 17)]),
        inputs: Ok(vec![value("v0")]),
        outputs: Ok(vec![]),
        initializers: Ok(vec![]),
        nodes: Ok(nodes.into_iter().map(Some).collect()),
    }
}

/// A chain of operators; value `v{i}` feeds node `i`, whose id is `100 + i`.
fn chain(ops: &[(&str, &str)]) -> RawGraph {
    graph(
        ops.iter()
            .enumerate()
            .map(|(i, (domain, op))| {
                node(
                    100 + i,
                    domain,
                    op,
                    vec![value(&format!("v{i}"))],
                    vec![value(&format!("v{}", i + 1))],
                )
            })
            .collect(),
    )
}

fn facts(claimable: bool, qualified: &str, name: &str) -> ClaimFacts {
    ClaimFacts {
        claimable,
        refusal: if claimable {
            None
        } else {
            Some(format!("no kernel for {qualified}"))
        },
        qualified_name: qualified.to_string(),
        name: name.to_string(),
        separate_qkv: false,
        bits: 4,
        unit_step: false,
        open_bounds: false,
        constant_repeats: true,
        shape_safety: CompileShapeSafety::Shapeless,
    }
}

fn query(list: Vec<ClaimFacts>) -> CapabilityQuery {
    CapabilityQuery {
        nodes: Ok(list
            .into_iter()
            .enumerate()
            .map(|(i, facts)| RawClaimNode {
                ort_id: Ok(100 + i),
                facts,
            })
            .collect()),
        in_cf_body: false,
        layer_metadata: Ok(None),
        layer_partitions: None,
        list_rejected: true,
    }
}

fn claims(raw: &RawGraph, query: &CapabilityQuery) -> Capability {
    assert!(raw.is_small());
    match get_capability(Some(raw), query) {
        Ok(Inspection::Claims(capability)) => capability,
        _ => panic!("the graph was not inspected"),
    }
}

#[test]
fn supported_neighbours_are_fused() {
    let raw = chain(&[("", "Relu"), ("", "Neg"), ("", "Foo"), ("", "Abs")]);
    let query = query(vec![
        facts(true, "Relu", "a"),
        facts(true, "Neg", "b"),
        facts(false, "Foo", "c"),
        facts(true, "Abs", "d"),
    ]);
    let found = claims(&raw, &query);
    assert_eq!(found.clusters, vec![vec![0, 1], vec![3]]);
    assert_eq!(found.claimed, 3);
    assert_eq!(found.total, 4);
    assert_eq!(found.rejected.len(), 1);
    assert_eq!(found.rejected[0].op, "Foo");
    assert_eq!(found.rejected[0].count, 1);
    assert_eq!(found.rejected[0].reason, "no kernel for Foo");
    assert_eq!(found.rejected[0].names, vec!["c".to_string()]);
    assert!(found.ignored_metadata.is_none());
}

#[test]
fn claims_leave_no_cycle_when_they_are_fused() {
    // Node 0 feeds node 2 directly and through node 1, which is not supported.
    let raw = graph(vec![
        node(100, "", "Relu", vec![value("v0")], vec![value("a")]),
        node(101, "", "Foo", vec![value("a")], vec![value("b")]),
        node(102, "", "Add", vec![value("a"), value("b")], vec![value("c")]),
        node(103, "", "Neg", vec![value("c")], vec![value("d")]),
    ]);
    let found = claims(
        &raw,
        &query(vec![
            facts(true, "Relu", "p"),
            facts(false, "Foo", "q"),
            facts(true, "Add", "r"),
            facts(true, "Neg", "s"),
        ]),
    );
    assert_eq!(found.clusters, vec![vec![0], vec![2, 3]]);
    assert_eq!(found.claimed, 3);
}

#[test]
fn rejected_nodes_are_listed_only_on_request() {
    let raw = chain(&[("", "Foo")]);
    let mut ask = query(vec![facts(false, "Foo", "c")]);
    ask.list_rejected = false;
    assert!(claims(&raw, &ask).rejected.is_empty());
}

#[test]
fn bodies_are_left_alone() {
    let raw = chain(&[("", "Relu")]);
    let mut ask = query(vec![facts(true, "Relu", "a")]);
    ask.in_cf_body = true;
    let found = claims(&raw, &ask);
    assert!(found.clusters.is_empty());
    assert_eq!(found.claimed, 0);
    assert_eq!(
        found.rejected[0].reason,
        "inside a control-flow subgraph body — claimed as part of the parent If/Loop/Scan, not \
         individually"
    );
}

#[test]
fn double_precision_is_kept_apart() {
    let raw = graph(vec![
        node(100, "", "Cast", vec![value("v0")], vec![value_of("d", DOUBLE)]),
        node(
            101,
            "",
            "Neg",
            vec![value_of("d", DOUBLE)],
            vec![value_of("e", DOUBLE)],
        ),
        node(102, "", "Relu", vec![value("v0")], vec![value("r")]),
        node(103, "", "Abs", vec![value("r")], vec![value("s")]),
    ]);
    let ask = query((0..4).map(|_| facts(true, "x", "")).collect());
    assert_eq!(claims(&raw, &ask).clusters, vec![vec![0, 1], vec![2, 3]]);
    let snapshot = OrtGraphSnapshot::from_ort(Some(&raw)).unwrap();
    assert!(snapshot_node_uses_float64(&snapshot, 0));
    assert!(!snapshot_node_uses_float64(&snapshot, 2));
}

fn decoder(layers: usize) -> (RawGraph, CapabilityQuery) {
    let mut nodes = Vec::new();
    let mut list = Vec::new();
    for layer in 0..layers {
        nodes.push(node(
            100 + 2 * layer,
            "com.microsoft",
            "GroupQueryAttention",
            vec![value(&format!("v{}", 2 * layer))],
            vec![
                value(&format!("v{}", 2 * layer + 1)),
                value(&format!("k{layer}")),
                value(&format!("p{layer}")),
            ],
        ));
        nodes.push(node(
            101 + 2 * layer,
            "",
            "Add",
            vec![value(&format!("v{}", 2 * layer + 1))],
            vec![value(&format!("v{}", 2 * layer + 2))],
        ));
        list.push(facts(true, "com.microsoft::GroupQueryAttention", ""));
        list.push(facts(true, "Add", ""));
    }
    (graph(nodes), query(list))
}

#[test]
fn long_decoders_are_split_by_layers() {
    let (raw, mut ask) = decoder(24);
    let found = claims(&raw, &ask);
    let sizes: Vec<usize> = found.clusters.iter().map(Vec::len).collect();
    // Twenty-three inferred boundaries, four layers to a part.
    assert_eq!(sizes, vec![8, 8, 8, 8, 8, 8]);
    assert_eq!(found.claimed, 48);
    ask.layer_partitions = Some("off".to_string());
    assert_eq!(claims(&raw, &ask).clusters.len(), 1);
    ask.layer_partitions = Some("12".to_string());
    assert_eq!(claims(&raw, &ask).clusters.len(), 2);
}

#[test]
fn metadata_names_the_layer_ends() {
    let (raw, mut ask) = decoder(3);
    assert_eq!(claims(&raw, &ask).clusters.len(), 1);
    ask.layer_partitions = Some("1".to_string());
    ask.layer_metadata = Ok(Some("[\"v2\", \"v4\", \"v0\", \"gone\"]".to_string()));
    let found = claims(&raw, &ask);
    assert_eq!(found.clusters, vec![vec![0, 1], vec![2, 3], vec![4, 5]]);
    assert!(found.ignored_metadata.is_none());
    ask.layer_metadata = Ok(Some("{}".to_string()));
    let found = claims(&raw, &ask);
    assert_eq!(found.clusters.len(), 1);
    let warning = found.ignored_metadata.unwrap();
    assert!(warning.contains("invalid type: map, expected a sequence"));
}

#[test]
fn compile_classes_matter_in_decoders_only() {
    let (raw, mut ask) = decoder(2);
    if let Ok(nodes) = &mut ask.nodes {
        nodes[1].facts.shape_safety = CompileShapeSafety::Eager;
    }
    assert_eq!(
        claims(&raw, &ask).clusters,
        vec![vec![0], vec![1], vec![2, 3]]
    );
    let raw = chain(&[("", "Relu"), ("", "Neg")]);
    let mut list = vec![facts(true, "Relu", ""), facts(true, "Neg", "")];
    list[1].shape_safety = CompileShapeSafety::Eager;
    assert_eq!(claims(&raw, &query(list)).clusters, vec![vec![0, 1]]);
}

#[test]
fn mixed_vision_graphs_use_intervals() {
    let raw = graph(vec![
        node(
            100,
            "com.microsoft",
            "PackedMultiHeadAttention",
            vec![value("v0")],
            vec![value("a")],
        ),
        node(
            101,
            "com.microsoft",
            "MatMulNBits",
            vec![value("v0")],
            vec![value("b")],
        ),
    ]);
    let ask = query(vec![facts(true, "x", ""), facts(true, "y", "")]);
    // Not connected, but next to each other.
    assert_eq!(claims(&raw, &ask).clusters, vec![vec![0, 1]]);
    let raw = chain(&[("", "Relu")]);
    assert_eq!(
        claims(&raw, &query(vec![facts(true, "x", "")])).clusters,
        vec![vec![0]]
    );
}

#[test]
fn a_value_with_two_producers_joins_both_to_its_reader() {
    let ask = query((0..3).map(|_| facts(true, "x", "")).collect());
    let put_out_twice = |read: &str, first: (&str, &str), second: (&str, &str)| {
        graph(vec![
            node(100, first.0, first.1, vec![value("v0")], vec![value("y")]),
            node(101, second.0, second.1, vec![value("v0")], vec![value("y")]),
            node(102, "", "Neg", vec![value(read)], vec![value("z")]),
        ])
    };
    let (relu, abs) = (("", "Relu"), ("", "Abs"));
    let read = put_out_twice("y", relu, abs);
    assert_eq!(claims(&read, &ask).clusters, vec![vec![0, 1, 2]]);
    // Nobody reads it.
    let unread = put_out_twice("v0", relu, abs);
    assert_eq!(
        claims(&unread, &ask).clusters,
        vec![vec![0], vec![1], vec![2]]
    );
    // Runs of neighbours do not look at edges.
    let packed = ("com.microsoft", "PackedMultiHeadAttention");
    let product = ("com.microsoft", "MatMulNBits");
    let mixed = put_out_twice("y", packed, product);
    assert_eq!(claims(&mixed, &ask).clusters, vec![vec![0, 1, 2]]);
}

#[test]
fn quantized_decoders_keep_their_dynamic_shapes() {
    let mut ops = vec![("", "Range"), ("", "Tile"), ("com.microsoft", "MatMulNBits")];
    for _ in 0..30 {
        ops.push(("", "Relu"));
    }
    let raw = chain(&ops);
    let mut list: Vec<ClaimFacts> = ops.iter().map(|(_, op)| facts(true, op, "")).collect();
    list[0].claimable = false;
    list[0].unit_step = true;
    list[0].open_bounds = true;
    list[1].claimable = false;
    list[1].constant_repeats = false;
    list[2].bits = 8;
    list[5].separate_qkv = true;
    let ask = query(list);
    assert_eq!(claims(&raw, &ask).claimed, 33);
    let mut plain = ask;
    if let Ok(nodes) = &mut plain.nodes {
        nodes[5].facts.separate_qkv = false;
    }
    assert_eq!(claims(&raw, &plain).claimed, 31);
}

#[test]
fn queries_can_fail() {
    let raw = chain(&[("", "Relu")]);
    let mut ask = query(vec![facts(true, "Relu", "")]);
    ask.nodes = Err(77);
    assert!(matches!(
        get_capability(Some(&raw), &ask),
        Err(CapabilityFailure::Status(77))
    ));
    let mut ask = query(vec![facts(true, "Relu", "")]);
    ask.layer_metadata = Err(78);
    assert!(matches!(
        get_capability(Some(&raw), &ask),
        Err(CapabilityFailure::Status(78))
    ));
    let mut ask = query(vec![facts(true, "Relu", "")]);
    if let Ok(nodes) = &mut ask.nodes {
        nodes[0].ort_id = Ok(5);
    }
    match get_capability(Some(&raw), &ask) {
        Err(CapabilityFailure::Message(text)) => {
            assert_eq!(text, "optimized graph snapshot is missing ORT node ID 5")
        }
        _ => panic!("the node is not in the graph"),
    }
    match get_capability(None, &ask) {
        Err(CapabilityFailure::Message(text)) => assert_eq!(text, "ORT supplied a null graph"),
        _ => panic!("there is no graph"),
    }
    let cyclic = graph(vec![
        node(100, "", "A", vec![value("b")], vec![value("a")]),
        node(101, "", "B", vec![value("a")], vec![value("b")]),
    ]);
    let ask = query(vec![facts(true, "A", ""), facts(true, "B", "")]);
    match get_capability(Some(&cyclic), &ask) {
        Err(CapabilityFailure::Message(text)) => assert_eq!(
            text,
            "optimized graph IR has no topological order: cycle detected in graph"
        ),
        _ => panic!("the graph is cyclic"),
    }
    assert!(matches!(
        get_capability(Some(&graph(vec![])), &ask),
        Ok(Inspection::Empty)
    ));
    assert!(matches!(
        get_capability(Some(&raw), &query(vec![])),
        Ok(Inspection::Incomplete)
    ));
}

fn attention(domain: &str, op_type: &str, outputs: &[Option<u32>]) -> NodeMetadata {
    NodeMetadata {
        ort_node_id: 0,
        name: String::new(),
        domain: domain.to_string(),
        op_type: op_type.to_string(),
        since_version: 1,
        input_slots: vec![],
        output_slots: outputs.to_vec(),
    }
}

#[test]
fn anchors_put_out_their_cache() {
    let all = [Some(0), Some(1), Some(2)];
    assert!(is_decoder_attention_anchor(&attention(
        "com.microsoft",
        "PagedAttention",
        &[]
    )));
    assert!(is_decoder_attention_anchor(&attention(
        "com.microsoft",
        "GroupQueryAttention",
        &all
    )));
    assert!(is_decoder_attention_anchor(&attention("", "Attention", &all)));
    assert!(!is_decoder_attention_anchor(&attention(
        "com.microsoft",
        "Attention",
        &all
    )));
    assert!(!is_decoder_attention_anchor(&attention(
        "com.microsoft",
        "MultiHeadAttention",
        &[Some(0), None, Some(2)]
    )));
}

#[test]
fn refusals_are_ranked_by_count() {
    let list: Vec<ClaimFacts> = [
        ("B", "b0"),
        ("A", "a0"),
        ("B", ""),
        ("C", "c0"),
        ("C", "c1"),
        ("C", "c2"),
    ]
    .iter()
    .map(|(op, name)| facts(false, op, name))
    .collect();
    let refs: Vec<&ClaimFacts> = list.iter().collect();
    let found = collect_rejections(&refs, &vec![false; 6], false);
    let shown: Vec<(&str, usize, Vec<String>)> = found
        .iter()
        .map(|entry| (entry.op.as_str(), entry.count, entry.names.clone()))
        .collect();
    assert_eq!(
        shown,
        vec![
            ("C", 3, vec!["c0".into(), "c1".into(), "c2".into()]),
            ("B", 2, vec!["b0".into()]),
            ("A", 1, vec!["a0".into()]),
        ]
    );
    let many: Vec<ClaimFacts> = (0..20).map(|i| facts(false, "X", &format!("x{i}"))).collect();
    let refs: Vec<&ClaimFacts> = many.iter().collect();
    let found = collect_rejections(&refs, &vec![false; 20], false);
    assert_eq!(found[0].count, 20);
    assert_eq!(found[0].names.len(), 16);
    let mut silent = facts(false, "Y", "");
    silent.refusal = None;
    let found = collect_rejections(&vec![&silent], &vec![false], false);
    assert_eq!(found[0].reason, "declined (no reason reported)");
}
