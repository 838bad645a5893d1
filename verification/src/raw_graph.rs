//! An optimized graph as it is read over the ORT ABI, before any interpretation.
//!
//! Every read can fail; the record keeps the failure text in the place of what it could not read.
//! A slot that was passed as a null handle is `None`.

use vstd::prelude::*;

verus! {

/// A tensor type: the element type number, the dimensions, and the dimensions' names.
pub struct RawTensor {
    pub dtype: u32,
    pub dims: Vec<i64>,
    pub symbols: Vec<String>,
}

/// The type of a value.
pub enum RawType {
    /// The type could not be read.
    Unreadable,
    /// Not a tensor; the number tells what it is.
    Other(u32),
    Tensor(Result<RawTensor, String>),
}

pub struct RawValueInfo {
    pub name: Result<String, String>,
    pub ty: RawType,
}

pub struct RawSubgraph {
    pub attribute: String,
    pub graph: Option<Box<RawGraph>>,
}

pub struct RawNode {
    pub inputs: Result<Vec<Option<RawValueInfo>>, String>,
    pub outputs: Result<Vec<Option<RawValueInfo>>, String>,
    pub id: Result<usize, String>,
    pub name: Result<String, String>,
    pub domain: Result<String, String>,
    pub op_type: Result<String, String>,
    pub since_version: Result<i32, String>,
    pub subgraphs: Result<Vec<RawSubgraph>, String>,
}

pub struct RawGraph {
    pub ir_version: Result<i64, String>,
    pub opsets: Result<Vec<(String, i64)>, String>,
    pub inputs: Result<Vec<Option<RawValueInfo>>, String>,
    pub outputs: Result<Vec<Option<RawValueInfo>>, String>,
    pub initializers: Result<Vec<Option<RawValueInfo>>, String>,
    pub nodes: Result<Vec<Option<RawNode>>, String>,
}

/// The most values and symbols that one slot can add to a graph.
pub open spec fn slot_weight(slot: Option<RawValueInfo>) -> nat {
    match slot {
        Some(info) => match info.ty {
            RawType::Tensor(Ok(tensor)) => 1 + tensor.dims@.len(),
            _ => 1,
        },
        None => 1,
    }
}

pub open spec fn slots_weight(slots: Seq<Option<RawValueInfo>>) -> nat
    decreases slots.len(),
{
    if slots.len() == 0 {
        0
    } else {
        slots_weight(slots.drop_last()) + slot_weight(slots.last())
    }
}

pub open spec fn part_weight(part: Result<Vec<Option<RawValueInfo>>, String>) -> nat {
    match part {
        Ok(slots) => slots_weight(slots@),
        Err(_) => 0,
    }
}

/// The most nodes, values and symbols that one node can add to a graph.
pub open spec fn node_weight(node: Option<RawNode>) -> nat {
    match node {
        Some(node) => 1 + part_weight(node.inputs) + part_weight(node.outputs),
        None => 1,
    }
}

pub open spec fn nodes_weight(nodes: Seq<Option<RawNode>>) -> nat
    decreases nodes.len(),
{
    if nodes.len() == 0 {
        0
    } else {
        nodes_weight(nodes.drop_last()) + node_weight(nodes.last())
    }
}

/// The most nodes, values and symbols that a graph can hold, subgraphs aside.
pub open spec fn graph_weight(raw: RawGraph) -> nat {
    part_weight(raw.inputs) + part_weight(raw.outputs) + part_weight(raw.initializers)
        + match raw.nodes {
        Ok(nodes) => nodes_weight(nodes@),
        Err(_) => 0,
    }
}

/// The graph and its subgraphs are small enough for 32-bit ids.
pub open spec fn fits(raw: RawGraph) -> bool
    decreases raw,
{
    graph_weight(raw) < u32::MAX && match raw.nodes {
        Ok(nodes) => nodes_fit(nodes@),
        Err(_) => true,
    }
}

pub open spec fn nodes_fit(nodes: Seq<Option<RawNode>>) -> bool
    decreases nodes,
{
    nodes.len() == 0 || (nodes_fit(nodes.drop_last()) && match nodes.last() {
        Some(node) => node_fits(node),
        None => true,
    })
}

pub open spec fn node_fits(node: RawNode) -> bool
    decreases node,
{
    match node.subgraphs {
        Ok(list) => subgraphs_fit(list@),
        Err(_) => true,
    }
}

pub open spec fn subgraphs_fit(list: Seq<RawSubgraph>) -> bool
    decreases list,
{
    list.len() == 0 || (subgraphs_fit(list.drop_last()) && match list.last().graph {
        Some(graph) => fits(*graph),
        None => true,
    })
}

pub proof fn lemma_slots_weight_split(slots: Seq<Option<RawValueInfo>>, k: int)
    requires
        0 <= k <= slots.len(),
    ensures
        slots_weight(slots.take(k)) <= slots_weight(slots),
        k <= slots_weight(slots.take(k)),
    decreases slots.len(),
{
    if k < slots.len() {
        assert(slots.drop_last().take(k) =~= slots.take(k));
        lemma_slots_weight_split(slots.drop_last(), k);
    } else {
        assert(slots.take(k) =~= slots);
        if slots.len() > 0 {
            assert(slots.drop_last().take(k - 1) =~= slots.drop_last());
            lemma_slots_weight_split(slots.drop_last(), k - 1);
        }
    }
}

pub proof fn lemma_nodes_weight_split(nodes: Seq<Option<RawNode>>, k: int)
    requires
        0 <= k <= nodes.len(),
    ensures
        nodes_weight(nodes.take(k)) <= nodes_weight(nodes),
        k <= nodes_weight(nodes.take(k)),
    decreases nodes.len(),
{
    if k < nodes.len() {
        assert(nodes.drop_last().take(k) =~= nodes.take(k));
        lemma_nodes_weight_split(nodes.drop_last(), k);
    } else {
        assert(nodes.take(k) =~= nodes);
        if nodes.len() > 0 {
            assert(nodes.drop_last().take(k - 1) =~= nodes.drop_last());
            lemma_nodes_weight_split(nodes.drop_last(), k - 1);
        }
    }
}

pub proof fn lemma_nodes_fit(nodes: Seq<Option<RawNode>>, i: int)
    requires
        nodes_fit(nodes),
        0 <= i < nodes.len(),
        nodes[i] is Some,
    ensures
        node_fits(nodes[i]->0),
    decreases nodes.len(),
{
    if i < nodes.len() - 1 {
        assert(nodes.drop_last()[i] == nodes[i]);
        lemma_nodes_fit(nodes.drop_last(), i);
    }
}

pub proof fn lemma_subgraphs_fit(list: Seq<RawSubgraph>, i: int)
    requires
        subgraphs_fit(list),
        0 <= i < list.len(),
        list[i].graph is Some,
    ensures
        fits(*list[i].graph->0),
    decreases list.len(),
{
    if i < list.len() - 1 {
        assert(list.drop_last()[i] == list[i]);
        lemma_subgraphs_fit(list.drop_last(), i);
    }
}

/// Counts the slots' weight, up to 32 bits.
fn weigh_slots(slots: &Vec<Option<RawValueInfo>>) -> (weight: u64)
    ensures
        weight == capped(slots_weight(slots@)),
{
    let mut weight: u64 = 0;
    let mut at: usize = 0;
    while at < slots.len()
        invariant
            at <= slots@.len(),
            weight == capped(slots_weight(slots@.take(at as int))),
        decreases slots@.len() - at,
    {
        proof {
            let next = slots@.take(at + 1);
            assert(next.drop_last() =~= slots@.take(at as int));
            assert(next.last() == slots@[at as int]);
        }
        let more: u64 = match &slots[at] {
            Some(info) => match &info.ty {
                RawType::Tensor(Ok(tensor)) => cap_sum(1, cap_len(tensor.dims.len())),
                _ => 1,
            },
            None => 1,
        };
        weight = cap_sum(weight, more);
        at = at + 1;
    }
    assert(slots@.take(at as int) =~= slots@);
    weight
}

/// The number, or the largest 32-bit number if it is greater.
pub open spec fn capped(n: nat) -> nat {
    if n < u32::MAX {
        n
    } else {
        u32::MAX as nat
    }
}

fn cap_len(n: usize) -> (cap: u64)
    ensures
        cap == capped(n as nat),
{
    if n < u32::MAX as usize {
        n as u64
    } else {
        u32::MAX as u64
    }
}

fn cap_sum(a: u64, b: u64) -> (sum: u64)
    requires
        a <= u32::MAX,
        b <= u32::MAX,
    ensures
        sum == capped((a + b) as nat),
{
    if a + b < u32::MAX as u64 {
        a + b
    } else {
        u32::MAX as u64
    }
}

fn weigh_part(part: &Result<Vec<Option<RawValueInfo>>, String>) -> (weight: u64)
    ensures
        weight == capped(part_weight(*part)),
{
    match part {
        Ok(slots) => weigh_slots(slots),
        Err(_) => 0,
    }
}

fn weigh_nodes(nodes: &Vec<Option<RawNode>>) -> (weight: u64)
    ensures
        weight == capped(nodes_weight(nodes@)),
{
    let mut weight: u64 = 0;
    let mut at: usize = 0;
    while at < nodes.len()
        invariant
            at <= nodes@.len(),
            weight == capped(nodes_weight(nodes@.take(at as int))),
        decreases nodes@.len() - at,
    {
        proof {
            let next = nodes@.take(at + 1);
            assert(next.drop_last() =~= nodes@.take(at as int));
            assert(next.last() == nodes@[at as int]);
        }
        let more: u64 = match &nodes[at] {
            Some(node) => {
                let inputs: u64 = weigh_part(&node.inputs);
                let outputs: u64 = weigh_part(&node.outputs);
                cap_sum(cap_sum(1, inputs), outputs)
            },
            None => 1,
        };
        weight = cap_sum(weight, more);
        at = at + 1;
    }
    assert(nodes@.take(at as int) =~= nodes@);
    weight
}

fn bodies_fit(list: &Vec<RawSubgraph>) -> (fit: bool)
    ensures
        fit == subgraphs_fit(list@),
    decreases *list,
{
    let mut fit: bool = true;
    let mut at: usize = 0;
    while at < list.len()
        invariant
            at <= list@.len(),
            fit == subgraphs_fit(list@.take(at as int)),
        decreases list@.len() - at,
    {
        proof {
            let next = list@.take(at + 1);
            assert(next.drop_last() =~= list@.take(at as int));
            assert(next.last() == list@[at as int]);
        }
        let one: bool = match &list[at].graph {
            Some(graph) => graph.is_small(),
            None => true,
        };
        fit = fit && one;
        at = at + 1;
    }
    assert(list@.take(at as int) =~= list@);
    fit
}

fn all_bodies_fit(nodes: &Vec<Option<RawNode>>) -> (fit: bool)
    ensures
        fit == nodes_fit(nodes@),
    decreases *nodes,
{
    let mut fit: bool = true;
    let mut at: usize = 0;
    while at < nodes.len()
        invariant
            at <= nodes@.len(),
            fit == nodes_fit(nodes@.take(at as int)),
        decreases nodes@.len() - at,
    {
        proof {
            let next = nodes@.take(at + 1);
            assert(next.drop_last() =~= nodes@.take(at as int));
            assert(next.last() == nodes@[at as int]);
        }
        let one: bool = match &nodes[at] {
            Some(node) => node.is_small(),
            None => true,
        };
        fit = fit && one;
        at = at + 1;
    }
    assert(nodes@.take(at as int) =~= nodes@);
    fit
}

impl RawNode {
    fn is_small(&self) -> (small: bool)
        ensures
            small == node_fits(*self),
        decreases *self,
    {
        match &self.subgraphs {
            Ok(list) => bodies_fit(list),
            Err(_) => true,
        }
    }
}

impl RawGraph {
    /// Whether the graph and its subgraphs are small enough for 32-bit ids.
    pub fn is_small(&self) -> (small: bool)
        ensures
            small == fits(*self),
        decreases *self,
    {
        let inputs: u64 = weigh_part(&self.inputs);
        let outputs: u64 = weigh_part(&self.outputs);
        let initializers: u64 = weigh_part(&self.initializers);
        let nodes: u64 = match &self.nodes {
            Ok(nodes) => weigh_nodes(nodes),
            Err(_) => 0,
        };
        let weight: u64 = cap_sum(cap_sum(cap_sum(inputs, outputs), initializers), nodes);
        if weight >= u32::MAX as u64 {
            return false;
        }
        match &self.nodes {
            Ok(nodes) => all_bodies_fit(nodes),
            Err(_) => true,
        }
    }
}

} // verus!
