//! The execution plan: nodes in the order they run, with every tensor they touch resolved.

use std::sync::Arc;

use vstd::hash_map::StringHashMap;
use vstd::prelude::*;

use crate::registry::CompileShapeSafety;

verus! {

/// Where a node finds an input.
#[derive(Clone, Copy, Debug, PartialEq, Eq, Structural)]
pub enum Src {
    Absent,
    Initializer,
    CtxInput,
    Intermediate,
}

/// An initializer: its type, and its bytes once they were copied.
pub struct InitData {
    pub shape: Vec<i64>,
    pub dtype: u32,
    pub count: usize,
    pub owned: Option<Arc<Vec<u8>>>,
}

/// A constant tensor attribute.
pub struct ConstTensor {
    pub data: Vec<u8>,
    pub shape: Vec<i64>,
    pub dtype: u32,
    pub count: usize,
}

/// The attributes of a node by name. Floating-point numbers are kept as their bits.
pub struct NodeAttributes {
    pub ints: StringHashMap<i64>,
    pub floats: StringHashMap<u32>,
    pub int_arrays: StringHashMap<Vec<i64>>,
    pub float_arrays: StringHashMap<Vec<u32>>,
    pub strings: StringHashMap<String>,
    pub tensors: StringHashMap<ConstTensor>,
}

/// An input of a node.
pub struct TensorRef {
    pub name: String,
    pub source: Src,
    pub ctx_index: usize,
    pub constant: bool,
    pub shape_const: bool,
    pub init: Option<InitData>,
}

/// An output of a node.
pub struct OutRef {
    pub name: String,
    pub external: bool,
    pub ctx_index: usize,
    pub otype: u32,
}

/// The body of a control-flow node.
pub struct SubgraphDesc {
    pub attr_name: String,
    pub input_names: Vec<String>,
    pub output_names: Vec<String>,
    pub nodes: Vec<NodeDesc>,
}

/// A node of the plan.
pub struct NodeDesc {
    pub op_type: String,
    pub domain: String,
    pub since_version: i32,
    pub shape_safety: CompileShapeSafety,
    pub node_id: usize,
    pub name: String,
    pub attributes: Arc<NodeAttributes>,
    pub inputs: Vec<TensorRef>,
    pub outputs: Vec<OutRef>,
    pub subgraphs: Vec<SubgraphDesc>,
}

#[verifier::ext_equal]
pub ghost struct InitModel {
    pub shape: Seq<i64>,
    pub dtype: u32,
    pub count: usize,
    pub owned: Option<Seq<u8>>,
}

#[verifier::ext_equal]
pub ghost struct TensorModel {
    pub name: Seq<char>,
    pub source: Src,
    pub ctx_index: usize,
    pub constant: bool,
    pub shape_const: bool,
    pub init: Option<InitModel>,
}

#[verifier::ext_equal]
pub ghost struct OutModel {
    pub name: Seq<char>,
    pub external: bool,
    pub ctx_index: usize,
    pub otype: u32,
}

#[verifier::ext_equal]
pub ghost struct BodyModel {
    pub attr_name: Seq<char>,
    pub input_names: Seq<Seq<char>>,
    pub output_names: Seq<Seq<char>>,
    pub nodes: Seq<NodeModel>,
}

#[verifier::ext_equal]
pub ghost struct NodeModel {
    pub op_type: Seq<char>,
    pub domain: Seq<char>,
    pub since_version: i32,
    pub shape_safety: CompileShapeSafety,
    pub node_id: usize,
    pub name: Seq<char>,
    pub attributes: NodeAttributes,
    pub inputs: Seq<TensorModel>,
    pub outputs: Seq<OutModel>,
    pub subgraphs: Seq<BodyModel>,
}

impl View for InitData {
    type V = InitModel;

    open spec fn view(&self) -> InitModel {
        InitModel {
            shape: self.shape@,
            dtype: self.dtype,
            count: self.count,
            owned: match self.owned {
                Some(bytes) => Some(bytes@),
                None => None,
            },
        }
    }
}

impl View for TensorRef {
    type V = TensorModel;

    open spec fn view(&self) -> TensorModel {
        TensorModel {
            name: self.name@,
            source: self.source,
            ctx_index: self.ctx_index,
            constant: self.constant,
            shape_const: self.shape_const,
            init: match self.init {
                Some(init) => Some(init@),
                None => None,
            },
        }
    }
}

impl View for OutRef {
    type V = OutModel;

    open spec fn view(&self) -> OutModel {
        OutModel {
            name: self.name@,
            external: self.external,
            ctx_index: self.ctx_index,
            otype: self.otype,
        }
    }
}

pub open spec fn tensor_models(list: Seq<TensorRef>) -> Seq<TensorModel> {
    Seq::new(list.len(), |i: int| list[i]@)
}

pub open spec fn out_models(list: Seq<OutRef>) -> Seq<OutModel> {
    Seq::new(list.len(), |i: int| list[i]@)
}

pub open spec fn name_models(list: Seq<String>) -> Seq<Seq<char>> {
    Seq::new(list.len(), |i: int| list[i]@)
}

pub open spec fn body_model(body: SubgraphDesc) -> BodyModel
    decreases body,
{
    BodyModel {
        attr_name: body.attr_name@,
        input_names: name_models(body.input_names@),
        output_names: name_models(body.output_names@),
        nodes: node_models(body.nodes@),
    }
}

pub open spec fn body_models(list: Seq<SubgraphDesc>) -> Seq<BodyModel>
    decreases list,
{
    if list.len() == 0 {
        Seq::empty()
    } else {
        body_models(list.drop_last()).push(body_model(list.last()))
    }
}

pub open spec fn node_model(node: NodeDesc) -> NodeModel
    decreases node,
{
    NodeModel {
        op_type: node.op_type@,
        domain: node.domain@,
        since_version: node.since_version,
        shape_safety: node.shape_safety,
        node_id: node.node_id,
        name: node.name@,
        attributes: *node.attributes,
        inputs: tensor_models(node.inputs@),
        outputs: out_models(node.outputs@),
        subgraphs: body_models(node.subgraphs@),
    }
}

pub open spec fn node_models(list: Seq<NodeDesc>) -> Seq<NodeModel>
    decreases list,
{
    if list.len() == 0 {
        Seq::empty()
    } else {
        node_models(list.drop_last()).push(node_model(list.last()))
    }
}

pub proof fn lemma_node_models(list: Seq<NodeDesc>)
    ensures
        node_models(list).len() == list.len(),
        forall|i: int| 0 <= i < list.len() ==> #[trigger] node_models(list)[i] == node_model(list[i]),
    decreases list.len(),
{
    if list.len() > 0 {
        lemma_node_models(list.drop_last());
        assert forall|i: int| 0 <= i < list.len() implies #[trigger] node_models(list)[i]
            == node_model(list[i]) by {
            if i < list.len() - 1 {
                assert(list.drop_last()[i] == list[i]);
                assert(node_models(list.drop_last())[i] == node_model(list[i]));
            }
        }
    }
}

pub proof fn lemma_body_models(list: Seq<SubgraphDesc>)
    ensures
        body_models(list).len() == list.len(),
        forall|i: int| 0 <= i < list.len() ==> #[trigger] body_models(list)[i] == body_model(list[i]),
    decreases list.len(),
{
    if list.len() > 0 {
        lemma_body_models(list.drop_last());
        assert forall|i: int| 0 <= i < list.len() implies #[trigger] body_models(list)[i]
            == body_model(list[i]) by {
            if i < list.len() - 1 {
                assert(list.drop_last()[i] == list[i]);
                assert(body_models(list.drop_last())[i] == body_model(list[i]));
            }
        }
    }
}

/// No attributes.
pub open spec fn no_attributes(attributes: NodeAttributes) -> bool {
    &&& attributes.ints@ == Map::<Seq<char>, i64>::empty()
    &&& attributes.floats@ == Map::<Seq<char>, u32>::empty()
    &&& attributes.int_arrays@ == Map::<Seq<char>, Vec<i64>>::empty()
    &&& attributes.float_arrays@ == Map::<Seq<char>, Vec<u32>>::empty()
    &&& attributes.strings@ == Map::<Seq<char>, String>::empty()
    &&& attributes.tensors@ == Map::<Seq<char>, ConstTensor>::empty()
}

impl NodeAttributes {
    pub fn new() -> (attributes: Self)
        ensures
            no_attributes(attributes),
    {
        NodeAttributes {
            ints: StringHashMap::new(),
            floats: StringHashMap::new(),
            int_arrays: StringHashMap::new(),
            float_arrays: StringHashMap::new(),
            strings: StringHashMap::new(),
            tensors: StringHashMap::new(),
        }
    }
}

impl InitData {
    /// The same initializer, sharing the bytes.
    pub fn share(&self) -> (copy: Self)
        ensures
            copy@ == self@,
    {
        let shape: Vec<i64> = self.shape.clone();
        let owned: Option<Arc<Vec<u8>>> = match &self.owned {
            Some(bytes) => Some(bytes.clone()),
            None => None,
        };
        let copy = InitData { shape, dtype: self.dtype, count: self.count, owned };
        proof {
            assert(copy.shape@ =~= self.shape@);
        }
        copy
    }
}

impl TensorRef {
    /// An input that was left out.
    pub fn absent() -> (tensor: Self)
        ensures
            tensor@ == (TensorModel {
                name: Seq::empty(),
                source: Src::Absent,
                ctx_index: 0,
                constant: false,
                shape_const: false,
                init: None,
            }),
    {
        TensorRef {
            name: String::new(),
            source: Src::Absent,
            ctx_index: 0,
            constant: false,
            shape_const: false,
            init: None,
        }
    }
}

impl NodeDesc {
    /// A node without slots, bodies or attributes.
    pub fn new(
        op_type: String,
        domain: String,
        since_version: i32,
        shape_safety: CompileShapeSafety,
    ) -> (node: Self)
        ensures
            no_attributes(*node.attributes),
            node_model(node) == (NodeModel {
                op_type: op_type@,
                domain: domain@,
                since_version,
                shape_safety,
                node_id: 0,
                name: Seq::empty(),
                attributes: *node.attributes,
                inputs: Seq::empty(),
                outputs: Seq::empty(),
                subgraphs: Seq::empty(),
            }),
    {
        let node = NodeDesc {
            op_type,
            domain,
            since_version,
            shape_safety,
            node_id: 0,
            name: String::new(),
            attributes: Arc::new(NodeAttributes::new()),
            inputs: Vec::new(),
            outputs: Vec::new(),
            subgraphs: Vec::new(),
        };
        proof {
            assert(node_model(node).inputs =~= Seq::<TensorModel>::empty());
            assert(node_model(node).outputs =~= Seq::<OutModel>::empty());
        }
        node
    }
}

} // verus!
