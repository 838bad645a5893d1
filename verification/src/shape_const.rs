//! Which inputs of a plan are the same in every run with the same input shapes.

use vstd::prelude::*;

use crate::engine::{
    body_model, body_models, lemma_body_models, lemma_node_models, node_model, node_models,
    out_models, tensor_models, BodyModel, NodeDesc, NodeModel, OutRef, Src, SubgraphDesc,
    TensorModel, TensorRef,
};
use crate::names::NameSet;
use crate::text::same_text;

verus! {

/// Operators that see only the shape of their input.
pub open spec fn reads_shape_only(op: Seq<char>) -> bool {
    op == "Shape"@ || op == "Size"@
}

/// Operators whose result is drawn at random.
pub open spec fn draws_at_random(op: Seq<char>) -> bool {
    ||| op == "RandomNormal"@
    ||| op == "RandomUniform"@
    ||| op == "RandomNormalLike"@
    ||| op == "RandomUniformLike"@
    ||| op == "Bernoulli"@
    ||| op == "Multinomial"@
    ||| op == "Dropout"@
}

/// The inputs with their marks.
pub open spec fn mark_inputs(
    inputs: Seq<TensorModel>,
    constants: Set<Seq<char>>,
) -> Seq<TensorModel> {
    Seq::new(
        inputs.len(),
        |i: int|
            TensorModel {
                shape_const: inputs[i].name.len() > 0 && constants.contains(inputs[i].name),
                ..inputs[i]
            },
    )
}

/// The input is the same in every run with the same shapes.
pub open spec fn input_fixed(input: TensorModel) -> bool {
    input.source == Src::Absent || input.source == Src::Initializer || input.constant
        || input.shape_const
}

/// The outputs of the node are fixed by the shapes: it has no body, and it reads only shapes, or
/// reads only what is fixed and draws nothing at random.
pub open spec fn node_fixed(node: NodeModel, constants: Set<Seq<char>>) -> bool {
    let inputs = mark_inputs(node.inputs, constants);
    node.subgraphs.len() == 0 && (reads_shape_only(node.op_type) || (!draws_at_random(node.op_type)
        && forall|i: int| 0 <= i < inputs.len() ==> input_fixed(#[trigger] inputs[i])))
}

/// `name` is an output of the node.
pub open spec fn names_output(node: NodeModel, name: Seq<char>) -> bool {
    exists|i: int| 0 <= i < node.outputs.len() && (#[trigger] node.outputs[i]).name == name
}

/// The constants known after a node.
pub open spec fn grow(constants: Set<Seq<char>>, node: NodeModel) -> Set<Seq<char>> {
    if node_fixed(node, constants) {
        Set::new(
            |name: Seq<char>| constants.contains(name) || (name.len() > 0 && names_output(node, name)),
        )
    } else {
        constants
    }
}

/// The constants known after a list of nodes.
pub open spec fn constants_after(
    nodes: Seq<NodeModel>,
    constants: Set<Seq<char>>,
) -> Set<Seq<char>>
    decreases nodes.len(),
{
    if nodes.len() == 0 {
        constants
    } else {
        grow(constants_after(nodes.drop_last(), constants), nodes.last())
    }
}

/// `name` is bound inside the body: a formal input, or an output of one of its nodes.
pub open spec fn binds(body: BodyModel, name: Seq<char>) -> bool {
    body.input_names.contains(name) || exists|i: int|
        0 <= i < body.nodes.len() && names_output(#[trigger] body.nodes[i], name)
}

/// The outer constants that a body sees: those it does not bind itself.
pub open spec fn body_scope(constants: Set<Seq<char>>, body: BodyModel) -> Set<Seq<char>> {
    Set::new(|name: Seq<char>| constants.contains(name) && !binds(body, name))
}

pub open spec fn mark_body(body: BodyModel, constants: Set<Seq<char>>) -> BodyModel
    decreases body,
{
    BodyModel { nodes: mark_nodes(body.nodes, body_scope(constants, body)), ..body }
}

pub open spec fn mark_bodies(bodies: Seq<BodyModel>, constants: Set<Seq<char>>) -> Seq<BodyModel>
    decreases bodies,
{
    if bodies.len() == 0 {
        Seq::empty()
    } else {
        mark_bodies(bodies.drop_last(), constants).push(mark_body(bodies.last(), constants))
    }
}

pub open spec fn mark_node(node: NodeModel, constants: Set<Seq<char>>) -> NodeModel
    decreases node,
{
    NodeModel {
        inputs: mark_inputs(node.inputs, constants),
        subgraphs: mark_bodies(node.subgraphs, constants),
        ..node
    }
}

/// The nodes with their inputs marked, bodies included.
pub open spec fn mark_nodes(nodes: Seq<NodeModel>, constants: Set<Seq<char>>) -> Seq<NodeModel>
    decreases nodes,
{
    if nodes.len() == 0 {
        Seq::empty()
    } else {
        mark_nodes(nodes.drop_last(), constants).push(
            mark_node(nodes.last(), constants_after(nodes.drop_last(), constants)),
        )
    }
}

fn mark_tensors(inputs: &mut Vec<TensorRef>, constants: &NameSet)
    requires
        constants.wf(),
    ensures
        tensor_models(final(inputs)@) == mark_inputs(tensor_models(old(inputs)@), constants@),
{
    let ghost start = inputs@;
    let mut at: usize = 0;
    while at < inputs.len()
        invariant
            at <= inputs@.len(),
            inputs@.len() == start.len(),
            constants.wf(),
            forall|i: int|
                0 <= i < at ==> (#[trigger] inputs@[i])@ == mark_inputs(
                    tensor_models(start),
                    constants@,
                )[i],
            forall|i: int| at <= i < inputs@.len() ==> #[trigger] inputs@[i] == start[i],
        decreases inputs@.len() - at,
    {
        let fixed: bool = !inputs[at].name.as_str().is_empty() && constants.contains(
            inputs[at].name.as_str(),
        );
        inputs[at].shape_const = fixed;
        at = at + 1;
    }
    proof {
        assert(tensor_models(inputs@) =~= mark_inputs(tensor_models(start), constants@));
    }
}

fn op_reads_shape_only(op: &str) -> (r: bool)
    ensures
        r == reads_shape_only(op@),
{
    same_text(op, "Shape") || same_text(op, "Size")
}

fn op_draws_at_random(op: &str) -> (r: bool)
    ensures
        r == draws_at_random(op@),
{
    same_text(op, "RandomNormal") || same_text(op, "RandomUniform") || same_text(
        op,
        "RandomNormalLike",
    ) || same_text(op, "RandomUniformLike") || same_text(op, "Bernoulli") || same_text(
        op,
        "Multinomial",
    ) || same_text(op, "Dropout")
}

/// Whether the marked inputs are all fixed.
fn inputs_fixed(inputs: &Vec<TensorRef>) -> (fixed: bool)
    ensures
        fixed == forall|i: int|
            0 <= i < inputs@.len() ==> input_fixed(#[trigger] tensor_models(inputs@)[i]),
{
    let mut at: usize = 0;
    while at < inputs.len()
        invariant
            at <= inputs@.len(),
            forall|i: int| 0 <= i < at ==> input_fixed(#[trigger] tensor_models(inputs@)[i]),
        decreases inputs@.len() - at,
    {
        let input: &TensorRef = &inputs[at];
        if !(input.source == Src::Absent || input.source == Src::Initializer || input.constant
            || input.shape_const) {
            assert(!input_fixed(tensor_models(inputs@)[at as int]));
            return false;
        }
        at = at + 1;
    }
    true
}

/// Adds the named outputs to the constants.
fn add_outputs(constants: &mut NameSet, outputs: &Vec<OutRef>)
    requires
        old(constants).wf(),
    ensures
        final(constants).wf(),
        forall|name: Seq<char>| #[trigger]
            final(constants)@.contains(name) <==> old(constants)@.contains(name) || (name.len() > 0
                && exists|i: int|
                0 <= i < outputs@.len() && (#[trigger] outputs@[i])@.name == name),
{
    let ghost start = constants@;
    let mut at: usize = 0;
    while at < outputs.len()
        invariant
            at <= outputs@.len(),
            constants.wf(),
            forall|name: Seq<char>| #[trigger]
                constants@.contains(name) <==> start.contains(name) || (name.len() > 0 && exists|
                    i: int,
                |
                    0 <= i < at && (#[trigger] outputs@[i])@.name == name),
        decreases outputs@.len() - at,
    {
        let ghost before = constants@;
        if !outputs[at].name.as_str().is_empty() {
            constants.insert(outputs[at].name.as_str());
        }
        proof {
            assert forall|name: Seq<char>| #[trigger] constants@.contains(name) <==> start.contains(
                name,
            ) || (name.len() > 0 && exists|i: int|
                0 <= i < at + 1 && (#[trigger] outputs@[i])@.name == name) by {
                assert(before.contains(name) <==> start.contains(name) || (name.len() > 0
                    && exists|i: int| 0 <= i < at && (#[trigger] outputs@[i])@.name == name));
                if outputs@[at as int]@.name == name {
                    assert(outputs@[at as int]@.name == name);
                }
            }
        }
        at = at + 1;
    }
}

/// The outer constants that a body sees.
fn scope_of(constants: &NameSet, body: &SubgraphDesc) -> (inner: NameSet)
    requires
        constants.wf(),
    ensures
        inner.wf(),
        inner@ == body_scope(constants@, body_model(*body)),
{
    let mut inner: NameSet = constants.copy();
    let ghost model = body_model(*body);
    let mut at: usize = 0;
    while at < body.input_names.len()
        invariant
            at <= body.input_names@.len(),
            inner.wf(),
            forall|name: Seq<char>| #[trigger]
                inner@.contains(name) <==> constants@.contains(name) && !(exists|i: int|
                    0 <= i < at && (#[trigger] body.input_names@[i])@ == name),
        decreases body.input_names@.len() - at,
    {
        let ghost before = inner@;
        inner.remove(body.input_names[at].as_str());
        proof {
            assert forall|name: Seq<char>| #[trigger] inner@.contains(name) <==> constants@.contains(
                name,
            ) && !(exists|i: int| 0 <= i < at + 1 && (#[trigger] body.input_names@[i])@ == name) by {
                assert(before.contains(name) <==> constants@.contains(name) && !(exists|i: int|
                    0 <= i < at && (#[trigger] body.input_names@[i])@ == name));
                if body.input_names@[at as int]@ == name {
                    assert(body.input_names@[at as int]@ == name);
                }
            }
        }
        at = at + 1;
    }
    proof {
        lemma_node_models(body.nodes@);
        assert forall|name: Seq<char>| (exists|i: int|
            0 <= i < at && (#[trigger] body.input_names@[i])@ == name) <==> model.input_names.contains(name) by {
            if model.input_names.contains(name) {
                let i = choose|i: int| 0 <= i < model.input_names.len() && model.input_names[i] == name;
                assert(body.input_names@[i]@ == name);
            }
            if exists|i: int| 0 <= i < at && (#[trigger] body.input_names@[i])@ == name {
                let i = choose|i: int| 0 <= i < at && (#[trigger] body.input_names@[i])@ == name;
                assert(model.input_names[i] == name);
            }
        }
    }
    let mut node: usize = 0;
    while node < body.nodes.len()
        invariant
            node <= body.nodes@.len(),
            inner.wf(),
            model == body_model(*body),
            model.nodes.len() == body.nodes@.len(),
            forall|i: int|
                0 <= i < body.nodes@.len() ==> #[trigger] model.nodes[i] == node_model(
                    body.nodes@[i],
                ),
            forall|name: Seq<char>| #[trigger]
                inner@.contains(name) <==> constants@.contains(name) && !model.input_names.contains(
                    name,
                ) && !(exists|i: int| 0 <= i < node && names_output(#[trigger] model.nodes[i], name)),
        decreases body.nodes@.len() - node,
    {
        let ghost opening = inner@;
        let ghost current = model.nodes[node as int];
        let mut out: usize = 0;
        while out < body.nodes[node].outputs.len()
            invariant
                node < body.nodes@.len(),
                out <= body.nodes@[node as int].outputs@.len(),
                inner.wf(),
                current.outputs == out_models(body.nodes@[node as int].outputs@),
                forall|name: Seq<char>| #[trigger]
                    inner@.contains(name) <==> opening.contains(name) && !(exists|i: int|
                        0 <= i < out && (#[trigger] current.outputs[i]).name == name),
            decreases body.nodes@[node as int].outputs@.len() - out,
        {
            let ghost before = inner@;
            inner.remove(body.nodes[node].outputs[out].name.as_str());
            proof {
                assert forall|name: Seq<char>| #[trigger] inner@.contains(name) <==> opening.contains(
                    name,
                ) && !(exists|i: int| 0 <= i < out + 1 && (#[trigger] current.outputs[i]).name == name) by {
                    assert(before.contains(name) <==> opening.contains(name) && !(exists|i: int|
                        0 <= i < out && (#[trigger] current.outputs[i]).name == name));
                    if current.outputs[out as int].name == name {
                        assert(current.outputs[out as int].name == name);
                    }
                }
            }
            out = out + 1;
        }
        proof {
            assert forall|name: Seq<char>| #[trigger] inner@.contains(name) <==> constants@.contains(
                name,
            ) && !model.input_names.contains(name) && !(exists|i: int|
                0 <= i < node + 1 && names_output(#[trigger] model.nodes[i], name)) by {
                assert(opening.contains(name) <==> constants@.contains(name)
                    && !model.input_names.contains(name) && !(exists|i: int|
                    0 <= i < node && names_output(#[trigger] model.nodes[i], name)));
                assert(inner@.contains(name) <==> opening.contains(name) && !names_output(
                    current,
                    name,
                ));
                if names_output(current, name) {
                    assert(names_output(model.nodes[node as int], name));
                }
            }
        }
        node = node + 1;
    }
    proof {
        assert(inner@ =~= body_scope(constants@, model));
    }
    inner
}

fn mark_subgraph(body: &mut SubgraphDesc, constants: &NameSet)
    requires
        constants.wf(),
    ensures
        body_model(*final(body)) == mark_body(body_model(*old(body)), constants@),
    decreases *old(body),
{
    let inner: NameSet = scope_of(constants, body);
    mark_shape_constants(&mut body.nodes, &inner);
}

fn mark_desc(node: &mut NodeDesc, constants: &NameSet)
    requires
        constants.wf(),
    ensures
        node_model(*final(node)) == mark_node(node_model(*old(node)), constants@),
    decreases *old(node),
{
    mark_tensors(&mut node.inputs, constants);
    mark_subgraphs(&mut node.subgraphs, constants);
}

fn mark_subgraphs(bodies: &mut Vec<SubgraphDesc>, constants: &NameSet)
    requires
        constants.wf(),
    ensures
        body_models(final(bodies)@) == mark_bodies(body_models(old(bodies)@), constants@),
    decreases *old(bodies),
{
    let ghost start = bodies@;
    let ghost models = body_models(start);
    let mut at: usize = 0;
    proof {
        lemma_body_models(start);
    }
    while at < bodies.len()
        invariant
            at <= bodies@.len(),
            start == old(bodies)@,
            bodies@.len() == start.len(),
            models == body_models(start),
            models.len() == start.len(),
            forall|i: int| 0 <= i < start.len() ==> #[trigger] models[i] == body_model(start[i]),
            constants.wf(),
            forall|i: int|
                0 <= i < at ==> body_model(#[trigger] bodies@[i]) == mark_body(
                    models[i],
                    constants@,
                ),
            forall|i: int| at <= i < bodies@.len() ==> #[trigger] bodies@[i] == start[i],
        decreases bodies@.len() - at,
    {
        proof {
            assert(decreases_to!(*old(bodies) => start[at as int]));
        }
        mark_subgraph(&mut bodies[at], constants);
        at = at + 1;
    }
    proof {
        lemma_body_models(bodies@);
        lemma_mark_bodies(models, constants@);
        assert(body_models(bodies@) =~= mark_bodies(models, constants@));
    }
}

pub proof fn lemma_mark_bodies(bodies: Seq<BodyModel>, constants: Set<Seq<char>>)
    ensures
        mark_bodies(bodies, constants).len() == bodies.len(),
        forall|i: int|
            0 <= i < bodies.len() ==> #[trigger] mark_bodies(bodies, constants)[i] == mark_body(
                bodies[i],
                constants,
            ),
    decreases bodies.len(),
{
    if bodies.len() > 0 {
        let front = bodies.drop_last();
        lemma_mark_bodies(front, constants);
        assert forall|i: int| 0 <= i < bodies.len() implies #[trigger] mark_bodies(
            bodies,
            constants,
        )[i] == mark_body(bodies[i], constants) by {
            if i < front.len() {
                assert(front[i] == bodies[i]);
                assert(mark_bodies(front, constants)[i] == mark_body(front[i], constants));
            }
        }
    }
}

pub proof fn lemma_mark_nodes(nodes: Seq<NodeModel>, constants: Set<Seq<char>>)
    ensures
        mark_nodes(nodes, constants).len() == nodes.len(),
        forall|i: int|
            0 <= i < nodes.len() ==> #[trigger] mark_nodes(nodes, constants)[i] == mark_node(
                nodes[i],
                constants_after(nodes.take(i), constants),
            ),
    decreases nodes.len(),
{
    if nodes.len() > 0 {
        let front = nodes.drop_last();
        lemma_mark_nodes(front, constants);
        assert forall|i: int| 0 <= i < nodes.len() implies #[trigger] mark_nodes(
            nodes,
            constants,
        )[i] == mark_node(nodes[i], constants_after(nodes.take(i), constants)) by {
            if i < front.len() {
                assert(front[i] == nodes[i]);
                assert(front.take(i) =~= nodes.take(i));
                assert(mark_nodes(front, constants)[i] == mark_node(
                    front[i],
                    constants_after(front.take(i), constants),
                ));
            } else {
                assert(nodes.take(i) =~= front);
            }
        }
    }
}

/// Marks every input whose value is fixed by the input shapes. A name that a body binds itself
/// hides an outer constant of that name.
pub fn mark_shape_constants(nodes: &mut Vec<NodeDesc>, inherited: &NameSet)
    requires
        inherited.wf(),
    ensures
        node_models(final(nodes)@) == mark_nodes(node_models(old(nodes)@), inherited@),
    decreases *old(nodes),
{
    let ghost start = nodes@;
    let ghost models = node_models(start);
    let mut constants: NameSet = inherited.copy();
    let mut at: usize = 0;
    proof {
        lemma_node_models(start);
        assert(models.take(0) =~= Seq::<NodeModel>::empty());
    }
    while at < nodes.len()
        invariant
            at <= nodes@.len(),
            start == old(nodes)@,
            nodes@.len() == start.len(),
            models == node_models(start),
            models.len() == start.len(),
            forall|i: int| 0 <= i < start.len() ==> #[trigger] models[i] == node_model(start[i]),
            constants.wf(),
            constants@ == constants_after(models.take(at as int), inherited@),
            forall|i: int|
                0 <= i < at ==> node_model(#[trigger] nodes@[i]) == mark_node(
                    models[i],
                    constants_after(models.take(i), inherited@),
                ),
            forall|i: int| at <= i < nodes@.len() ==> #[trigger] nodes@[i] == start[i],
        decreases nodes@.len() - at,
    {
        let ghost model = models[at as int];
        let ghost known = constants@;
        proof {
            assert(decreases_to!(*old(nodes) => start[at as int]));
            assert(models.take(at + 1).drop_last() =~= models.take(at as int));
            assert(models.take(at + 1).last() == model);
            lemma_body_models(start[at as int].subgraphs@);
        }
        mark_desc(&mut nodes[at], &constants);
        let ghost marked = node_model(nodes@[at as int]);
        proof {
            lemma_body_models(nodes@[at as int].subgraphs@);
            lemma_mark_bodies(model.subgraphs, known);
            assert(marked.subgraphs.len() == model.subgraphs.len());
            assert(marked.inputs == mark_inputs(model.inputs, known));
        }
        let fixed: bool = nodes[at].subgraphs.len() == 0 && (op_reads_shape_only(
            nodes[at].op_type.as_str(),
        ) || (!op_draws_at_random(nodes[at].op_type.as_str()) && inputs_fixed(&nodes[at].inputs)));
        if fixed {
            add_outputs(&mut constants, &nodes[at].outputs);
        }
        proof {
            assert(tensor_models(nodes@[at as int].inputs@) == marked.inputs);
            assert(fixed == node_fixed(model, known));
            assert(model.outputs == out_models(nodes@[at as int].outputs@));
            assert forall|name: Seq<char>| constants@.contains(name) <==> grow(known, model).contains(
                name,
            ) by {
                if fixed {
                    if names_output(model, name) {
                        let i = choose|i: int|
                            0 <= i < model.outputs.len() && (#[trigger] model.outputs[i]).name == name;
                        assert(nodes@[at as int].outputs@[i]@.name == name);
                    }
                    if exists|i: int|
                        0 <= i < nodes@[at as int].outputs@.len()
                            && (#[trigger] nodes@[at as int].outputs@[i])@.name == name {
                        let i = choose|i: int|
                            0 <= i < nodes@[at as int].outputs@.len()
                                && (#[trigger] nodes@[at as int].outputs@[i])@.name == name;
                        assert(model.outputs[i].name == name);
                    }
                }
            }
            assert(constants@ =~= grow(known, model));
        }
        at = at + 1;
    }
    proof {
        lemma_node_models(nodes@);
        lemma_mark_nodes(models, inherited@);
        assert(node_models(nodes@) =~= mark_nodes(models, inherited@));
    }
}

proof fn lemma_constants_kept(nodes: Seq<NodeModel>, constants: Set<Seq<char>>)
    ensures
        constants.subset_of(constants_after(nodes, constants)),
    decreases nodes.len(),
{
    if nodes.len() > 0 {
        lemma_constants_kept(nodes.drop_last(), constants);
    }
}

/// A constant of the surrounding plan that a body does not bind itself marks the body's inputs of
/// that name.
pub proof fn law_constants_flow_into_bodies(
    body: BodyModel,
    constants: Set<Seq<char>>,
    node: int,
    input: int,
)
    requires
        0 <= node < body.nodes.len(),
        0 <= input < body.nodes[node].inputs.len(),
        body.nodes[node].inputs[input].name.len() > 0,
        constants.contains(body.nodes[node].inputs[input].name),
        !binds(body, body.nodes[node].inputs[input].name),
    ensures
        mark_body(body, constants).nodes[node].inputs[input].shape_const,
{
    let scope = body_scope(constants, body);
    lemma_mark_nodes(body.nodes, scope);
    lemma_constants_kept(body.nodes.take(node), scope);
    assert(mark_nodes(body.nodes, scope)[node] == mark_node(
        body.nodes[node],
        constants_after(body.nodes.take(node), scope),
    ));
}

/// The mark of an input depends on its name alone, so that marking a plan again changes nothing.
pub proof fn law_marking_settles(nodes: Seq<NodeModel>, constants: Set<Seq<char>>)
    ensures
        mark_nodes(mark_nodes(nodes, constants), constants) == mark_nodes(nodes, constants),
    decreases nodes,
{
    let once = mark_nodes(nodes, constants);
    if nodes.len() > 0 {
        let front = nodes.drop_last();
        law_marking_settles(front, constants);
        lemma_mark_nodes(nodes, constants);
        lemma_mark_nodes(front, constants);
        lemma_constants_same(front, constants);
        let known = constants_after(front, constants);
        let last = mark_node(nodes.last(), known);
        assert(once.drop_last() =~= mark_nodes(front, constants));
        assert(once.last() == last);
        lemma_node_settles(nodes.last(), known);
        assert(mark_nodes(once, constants) == mark_nodes(mark_nodes(front, constants), constants).push(
            mark_node(last, constants_after(mark_nodes(front, constants), constants)),
        ));
    }
}

proof fn lemma_node_settles(node: NodeModel, constants: Set<Seq<char>>)
    ensures
        mark_node(mark_node(node, constants), constants) == mark_node(node, constants),
    decreases node,
{
    lemma_bodies_settle(node.subgraphs, constants);
    assert(mark_inputs(mark_inputs(node.inputs, constants), constants) =~= mark_inputs(
        node.inputs,
        constants,
    ));
}

proof fn lemma_bodies_settle(bodies: Seq<BodyModel>, constants: Set<Seq<char>>)
    ensures
        mark_bodies(mark_bodies(bodies, constants), constants) == mark_bodies(bodies, constants),
    decreases bodies,
{
    if bodies.len() > 0 {
        let front = bodies.drop_last();
        lemma_bodies_settle(front, constants);
        lemma_body_settles(bodies.last(), constants);
        let once = mark_bodies(bodies, constants);
        assert(once.drop_last() =~= mark_bodies(front, constants));
    }
}

proof fn lemma_body_settles(body: BodyModel, constants: Set<Seq<char>>)
    ensures
        mark_body(mark_body(body, constants), constants) == mark_body(body, constants),
    decreases body,
{
    let scope = body_scope(constants, body);
    let once = mark_body(body, constants);
    lemma_mark_nodes(body.nodes, scope);
    assert forall|name: Seq<char>| binds(once, name) <==> binds(body, name) by {
        assert forall|i: int| 0 <= i < body.nodes.len() implies (names_output(
            #[trigger] once.nodes[i],
            name,
        ) <==> names_output(body.nodes[i], name)) by {
            assert(mark_nodes(body.nodes, scope)[i] == mark_node(
                body.nodes[i],
                constants_after(body.nodes.take(i), scope),
            ));
            assert(once.nodes[i].outputs == body.nodes[i].outputs);
        }
        if binds(body, name) && !body.input_names.contains(name) {
            let i = choose|i: int|
                0 <= i < body.nodes.len() && names_output(#[trigger] body.nodes[i], name);
            assert(names_output(once.nodes[i], name));
        }
        if binds(once, name) && !body.input_names.contains(name) {
            let i = choose|i: int|
                0 <= i < once.nodes.len() && names_output(#[trigger] once.nodes[i], name);
            assert(names_output(body.nodes[i], name));
        }
    }
    assert(body_scope(constants, once) =~= scope);
    law_marking_settles(body.nodes, scope);
}

/// Marks do not change which names are constants.
proof fn lemma_constants_same(nodes: Seq<NodeModel>, constants: Set<Seq<char>>)
    ensures
        constants_after(mark_nodes(nodes, constants), constants) == constants_after(
            nodes,
            constants,
        ),
    decreases nodes.len(),
{
    if nodes.len() > 0 {
        let front = nodes.drop_last();
        lemma_constants_same(front, constants);
        lemma_mark_nodes(nodes, constants);
        lemma_mark_nodes(front, constants);
        let once = mark_nodes(nodes, constants);
        let known = constants_after(front, constants);
        let node = nodes.last();
        let marked = mark_node(node, known);
        assert(once.drop_last() =~= mark_nodes(front, constants));
        assert(once.last() == marked);
        lemma_mark_bodies(node.subgraphs, known);
        assert(mark_inputs(marked.inputs, known) =~= mark_inputs(node.inputs, known));
        assert(node_fixed(marked, known) == node_fixed(node, known));
        assert(marked.outputs == node.outputs);
        assert forall|name: Seq<char>| names_output(marked, name) == #[trigger] names_output(
            node,
            name,
        ) by {
            if names_output(node, name) {
                let i = choose|i: int|
                    0 <= i < node.outputs.len() && (#[trigger] node.outputs[i]).name == name;
                assert(marked.outputs[i].name == name);
            }
        }
        assert(grow(known, marked) =~= grow(known, node));
    }
}

} // verus!
