//! Running an `If`: the branch is chosen before anything runs.

use vstd::prelude::*;

use crate::engine::NodeDesc;
use crate::ops::scan_run::{body_index, find_body, lemma_body_found, ArrayId};

verus! {

/// The truth of a condition that was read as one byte; a missing one is false.
pub open spec fn truth(byte: Option<u8>) -> bool {
    byte matches Some(value) && value != 0
}

/// The truth of a condition that was read as one byte.
pub fn read_host_bool(byte: Option<u8>) -> (value: bool)
    ensures
        value == truth(byte),
        value <==> byte is Some && byte->0 != 0,
{
    match byte {
        Some(value) => value != 0,
        None => false,
    }
}

/// The attribute of the branch that is taken.
pub open spec fn branch_name(condition: bool) -> Seq<char> {
    if condition {
        "then_branch"@
    } else {
        "else_branch"@
    }
}

/// The branch that is taken.
pub fn choose_branch(node: &NodeDesc, condition: bool) -> (branch: Result<usize, String>)
    ensures
        match body_index(node.subgraphs@, branch_name(condition)) {
            Some(index) => branch matches Ok(branch) && branch == index && branch
                < node.subgraphs@.len(),
            None => branch matches Err(reason) && reason@ == "MLX If: missing branch subgraph"@,
        },
        branch matches Ok(taken) ==> taken < node.subgraphs@.len()
            && node.subgraphs@[taken as int].attr_name@ == (if condition {
            "then_branch"@
        } else {
            "else_branch"@
        }),
        branch is Err ==> forall|i: int|
            0 <= i < node.subgraphs@.len() ==> (#[trigger] node.subgraphs@[i]).attr_name@ != (
            if condition {
                "then_branch"@
            } else {
                "else_branch"@
            }),
{
    let name: &str = if condition {
        "then_branch"
    } else {
        "else_branch"
    };
    proof {
        lemma_body_found(node.subgraphs@, branch_name(condition));
    }
    match find_body(node, name) {
        Some(index) => Ok(index),
        None => Err("MLX If: missing branch subgraph".to_owned()),
    }
}

/// The arrays to bind, one for each output of the node in order.
pub fn branch_outputs(node: &NodeDesc, outputs: Vec<ArrayId>) -> (bound: Result<
    Vec<ArrayId>,
    String,
>)
    ensures
        if outputs@.len() == node.outputs@.len() {
            bound matches Ok(bound) && bound@ == outputs@
        } else {
            bound matches Err(reason) && reason@ == "MLX If: branch output arity mismatch"@
        },
{
    if outputs.len() != node.outputs.len() {
        return Err("MLX If: branch output arity mismatch".to_owned());
    }
    Ok(outputs)
}

} // verus!
