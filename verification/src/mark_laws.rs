//! Which inputs of a plan the input shapes fix, told by the plan's own marks.

use vstd::prelude::*;

use crate::engine::{BodyModel, NodeModel, Src, TensorModel};
use crate::plan_builder::{order_of, plan_graph, plan_nodes, scope_of, PlanEnv};
use crate::scope_laws::{lemma_scope, nearest, outside};
use crate::shape_const::{
    body_scope, constants_after, lemma_mark_bodies, lemma_mark_nodes, mark_body, mark_inputs,
    mark_node, mark_nodes, names_output, node_fixed,
};
use crate::sidecars::SideModel;
use crate::snapshot::{shot_of, well_formed, OrtGraphSnapshot};

verus! {

/// The node's outputs are the same in every run with the same shapes: it has no bodies, and it
/// reads only the shape of its input, or it draws nothing at random and each of its inputs is left
/// out, an initializer, a constant, or marked.
pub open spec fn settled(node: NodeModel) -> bool {
    let op = node.op_type;
    &&& node.subgraphs.len() == 0
    &&& op == "Shape"@ || op == "Size"@ || ({
        &&& op != "RandomNormal"@
        &&& op != "RandomUniform"@
        &&& op != "RandomNormalLike"@
        &&& op != "RandomUniformLike"@
        &&& op != "Bernoulli"@
        &&& op != "Multinomial"@
        &&& op != "Dropout"@
        &&& forall|k: int|
            0 <= k < node.inputs.len() ==> {
                let input = #[trigger] node.inputs[k];
                input.source == Src::Absent || input.source == Src::Initializer || input.constant
                    || input.shape_const
            }
    })
}

/// The node puts out a value of that name.
pub open spec fn puts_out(node: NodeModel, name: Seq<char>) -> bool {
    exists|i: int| 0 <= i < node.outputs.len() && (#[trigger] node.outputs[i]).name == name
}

/// The name is fixed before node `j` runs: from the start, or as an output of a settled node before
/// it.
pub open spec fn fixed_before(
    nodes: Seq<NodeModel>,
    constants: Set<Seq<char>>,
    j: int,
    name: Seq<char>,
) -> bool {
    constants.contains(name) || (name.len() > 0 && exists|i: int|
        0 <= i < j && settled(#[trigger] nodes[i]) && puts_out(nodes[i], name))
}

proof fn lemma_settled(node: NodeModel, known: Set<Seq<char>>)
    ensures
        node_fixed(node, known) == settled(mark_node(node, known)),
{
    let marked = mark_node(node, known);
    lemma_mark_bodies(node.subgraphs, known);
    assert(marked.inputs == mark_inputs(node.inputs, known));
}

proof fn lemma_known(nodes: Seq<NodeModel>, constants: Set<Seq<char>>, j: int, name: Seq<char>)
    requires
        0 <= j <= nodes.len(),
    ensures
        constants_after(nodes.take(j), constants).contains(name) == fixed_before(
            mark_nodes(nodes, constants),
            constants,
            j,
            name,
        ),
    decreases j,
{
    let marked = mark_nodes(nodes, constants);
    lemma_mark_nodes(nodes, constants);
    if j > 0 {
        lemma_known(nodes, constants, j - 1, name);
        let front = nodes.take(j).drop_last();
        assert(front =~= nodes.take(j - 1));
        let node = nodes[j - 1];
        let known = constants_after(front, constants);
        assert(nodes.take(j).last() == node);
        assert(marked[j - 1] == mark_node(node, known));
        lemma_settled(node, known);
        assert(marked[j - 1].outputs == node.outputs);
        assert(names_output(node, name) == puts_out(marked[j - 1], name));
        if fixed_before(marked, constants, j - 1, name) && !constants.contains(name) {
            let i = choose|i: int|
                0 <= i < j - 1 && settled(#[trigger] marked[i]) && puts_out(marked[i], name);
            assert(settled(marked[i]));
        }
        if fixed_before(marked, constants, j, name) && !constants.contains(name) {
            let i = choose|i: int|
                0 <= i < j && settled(#[trigger] marked[i]) && puts_out(marked[i], name);
            if i < j - 1 {
                assert(fixed_before(marked, constants, j - 1, name));
            }
        }
    } else {
        assert(nodes.take(0) =~= Seq::empty());
    }
}

/// An input of a marked plan is marked exactly if it has a name that is fixed before its node runs.
/// Nothing else of an input changes, nor of a node but for its bodies.
pub proof fn law_marks(nodes: Seq<NodeModel>, constants: Set<Seq<char>>)
    ensures
        ({
            let marked = mark_nodes(nodes, constants);
            &&& marked.len() == nodes.len()
            &&& forall|j: int, k: int|
                0 <= j < nodes.len() && 0 <= k < nodes[j].inputs.len() ==> (
                #[trigger] marked[j].inputs[k]).shape_const == (nodes[j].inputs[k].name.len() > 0
                    && fixed_before(marked, constants, j, nodes[j].inputs[k].name))
            &&& forall|j: int, k: int|
                0 <= j < nodes.len() && 0 <= k < nodes[j].inputs.len()
                    ==> #[trigger] marked[j].inputs[k] == (TensorModel {
                    shape_const: marked[j].inputs[k].shape_const,
                    ..nodes[j].inputs[k]
                })
            &&& forall|j: int|
                0 <= j < nodes.len() ==> (#[trigger] marked[j]).inputs.len()
                    == nodes[j].inputs.len() && marked[j] == (NodeModel {
                    inputs: marked[j].inputs,
                    subgraphs: marked[j].subgraphs,
                    ..nodes[j]
                })
        }),
{
    let marked = mark_nodes(nodes, constants);
    lemma_mark_nodes(nodes, constants);
    assert forall|j: int, k: int|
        0 <= j < nodes.len() && 0 <= k < nodes[j].inputs.len() implies (
    #[trigger] marked[j].inputs[k]).shape_const == (nodes[j].inputs[k].name.len() > 0
        && fixed_before(marked, constants, j, nodes[j].inputs[k].name)) by {
        lemma_known(nodes, constants, j, nodes[j].inputs[k].name);
        assert(marked[j] == mark_node(nodes[j], constants_after(nodes.take(j), constants)));
    }
}

/// A name is bound in a body: it is one of its inputs, or one of its nodes puts it out.
pub open spec fn bound_in(body: BodyModel, name: Seq<char>) -> bool {
    ||| exists|i: int| 0 <= i < body.input_names.len() && #[trigger] body.input_names[i] == name
    ||| exists|i: int| 0 <= i < body.nodes.len() && puts_out(#[trigger] body.nodes[i], name)
}

/// The bodies of a marked plan are marked in the same way, where a name is fixed from the start
/// exactly if it is fixed before the node of the body runs and is not bound in the body.
pub proof fn law_marks_in_bodies(
    nodes: Seq<NodeModel>,
    constants: Set<Seq<char>>,
    j: int,
    b: int,
)
    requires
        0 <= j < nodes.len(),
        0 <= b < nodes[j].subgraphs.len(),
    ensures
        ({
            let marked = mark_nodes(nodes, constants);
            let body = nodes[j].subgraphs[b];
            let within = Set::new(
                |name: Seq<char>|
                    fixed_before(marked, constants, j, name) && !bound_in(body, name),
            );
            &&& marked[j].subgraphs.len() == nodes[j].subgraphs.len()
            &&& marked[j].subgraphs[b] == (BodyModel {
                nodes: mark_nodes(body.nodes, within),
                ..body
            })
        }),
{
    let marked = mark_nodes(nodes, constants);
    let body = nodes[j].subgraphs[b];
    let known = constants_after(nodes.take(j), constants);
    lemma_mark_nodes(nodes, constants);
    lemma_mark_bodies(nodes[j].subgraphs, known);
    assert(marked[j] == mark_node(nodes[j], known));
    assert(marked[j].subgraphs[b] == mark_body(body, known));
    let within = Set::new(
        |name: Seq<char>| fixed_before(marked, constants, j, name) && !bound_in(body, name),
    );
    assert forall|name: Seq<char>| body_scope(known, body).contains(name) == within.contains(
        name,
    ) by {
        lemma_known(nodes, constants, j, name);
        if body.input_names.contains(name) {
            let i = choose|i: int| 0 <= i < body.input_names.len() && body.input_names[i] == name;
            assert(body.input_names[i] == name);
        }
        assert forall|i: int| 0 <= i < body.nodes.len() implies names_output(
            #[trigger] body.nodes[i],
            name,
        ) == puts_out(body.nodes[i], name) by {}
        if bound_in(body, name) {
            if exists|i: int| 0 <= i < body.nodes.len() && puts_out(#[trigger] body.nodes[i], name) {
                let i = choose|i: int|
                    0 <= i < body.nodes.len() && puts_out(#[trigger] body.nodes[i], name);
                assert(names_output(body.nodes[i], name));
            }
        }
    }
    assert(body_scope(known, body) =~= within);
}

/// At every depth an input is marked exactly if it has a name that is fixed before its node runs.
/// In a body a name is fixed from the start if it is fixed before the node of the body runs and is
/// not bound in the body.
pub open spec fn marks_follow(nodes: Seq<NodeModel>, constants: Set<Seq<char>>) -> bool
    decreases nodes,
{
    &&& forall|j: int, k: int|
        0 <= j < nodes.len() && 0 <= k < nodes[j].inputs.len() ==> (
        #[trigger] nodes[j].inputs[k]).shape_const == (nodes[j].inputs[k].name.len() > 0
            && fixed_before(nodes, constants, j, nodes[j].inputs[k].name))
    &&& forall|j: int, b: int|
        #![trigger nodes[j].subgraphs[b]]
        0 <= j < nodes.len() && 0 <= b < nodes[j].subgraphs.len() ==> marks_follow(
            nodes[j].subgraphs[b].nodes,
            Set::new(
                |name: Seq<char>|
                    fixed_before(nodes, constants, j, name) && !bound_in(
                        nodes[j].subgraphs[b],
                        name,
                    ),
            ),
        )
}

proof fn lemma_marks_follow(nodes: Seq<NodeModel>, constants: Set<Seq<char>>)
    ensures
        marks_follow(mark_nodes(nodes, constants), constants),
    decreases nodes,
{
    let marked = mark_nodes(nodes, constants);
    law_marks(nodes, constants);
    assert forall|j: int, k: int|
        0 <= j < marked.len() && 0 <= k < marked[j].inputs.len() implies (
    #[trigger] marked[j].inputs[k]).shape_const == (marked[j].inputs[k].name.len() > 0
        && fixed_before(marked, constants, j, marked[j].inputs[k].name)) by {
        assert(marked[j].inputs[k].name == nodes[j].inputs[k].name);
    }
    assert forall|j: int, b: int|
        #![trigger marked[j].subgraphs[b]]
        0 <= j < marked.len() && 0 <= b < marked[j].subgraphs.len() implies marks_follow(
        marked[j].subgraphs[b].nodes,
        Set::new(
            |name: Seq<char>|
                fixed_before(marked, constants, j, name) && !bound_in(
                    marked[j].subgraphs[b],
                    name,
                ),
        ),
    ) by {
        lemma_mark_nodes(nodes, constants);
        let known = constants_after(nodes.take(j), constants);
        lemma_mark_bodies(nodes[j].subgraphs, known);
        assert(marked[j] == mark_node(nodes[j], known));
        law_marks_in_bodies(nodes, constants, j, b);
        let body = nodes[j].subgraphs[b];
        let shown = marked[j].subgraphs[b];
        let within = Set::new(
            |name: Seq<char>| fixed_before(marked, constants, j, name) && !bound_in(body, name),
        );
        let told = Set::new(
            |name: Seq<char>| fixed_before(marked, constants, j, name) && !bound_in(shown, name),
        );
        lemma_marks_follow(body.nodes, within);
        law_marks(body.nodes, within);
        assert forall|name: Seq<char>| within.contains(name) == told.contains(name) by {
            assert forall|i: int| 0 <= i < body.nodes.len() implies puts_out(
                #[trigger] body.nodes[i],
                name,
            ) == puts_out(shown.nodes[i], name) by {
                assert(shown.nodes[i].outputs == body.nodes[i].outputs);
            }
            if exists|i: int| 0 <= i < body.nodes.len() && puts_out(#[trigger] body.nodes[i], name) {
                let i = choose|i: int|
                    0 <= i < body.nodes.len() && puts_out(#[trigger] body.nodes[i], name);
                assert(puts_out(shown.nodes[i], name));
            }
            if exists|i: int| 0 <= i < shown.nodes.len() && puts_out(
                #[trigger] shown.nodes[i],
                name,
            ) {
                let i = choose|i: int|
                    0 <= i < shown.nodes.len() && puts_out(#[trigger] shown.nodes[i], name);
                assert(puts_out(body.nodes[i], name));
            }
        }
        assert(within =~= told);
    }
}

/// In a plan the names that are fixed from the start are those that are initialized in the graph or
/// outside; from there the marks follow, in the graph and in bodies at every depth.
pub proof fn law_planned_marks(
    snapshot: OrtGraphSnapshot,
    side: SideModel,
    env: PlanEnv,
    nodes: Seq<NodeModel>,
)
    requires
        well_formed(snapshot),
        plan_graph(snapshot, side, env) == Ok::<Seq<NodeModel>, Seq<char>>(nodes),
    ensures
        marks_follow(
            nodes,
            Set::new(
                |name: Seq<char>|
                    nearest(shot_of(snapshot), side, outside(env, name), name) is Some,
            ),
        ),
{
    let shot = shot_of(snapshot);
    let scope = scope_of(shot, side, env)->Ok_0;
    let initialized = Set::new(
        |name: Seq<char>| nearest(shot, side, outside(env, name), name) is Some,
    );
    assert forall|name: Seq<char>| scope.dom().contains(name) == initialized.contains(name) by {
        lemma_scope(shot, side, env, name);
    }
    assert(scope.dom() =~= initialized);
    let plain = plan_nodes(snapshot, side, env, scope, order_of(shot.ir))->Ok_0;
    assert(nodes == mark_nodes(plain, scope.dom()));
    lemma_marks_follow(plain, scope.dom());
}

} // verus!
