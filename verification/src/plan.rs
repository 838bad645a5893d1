//! A plan with its compiled paths, and the policy that ties them to element types.

use vstd::prelude::*;

use crate::engine::NodeDesc;

verus! {

/// The ONNX number of the 64-bit floating-point element type.
pub const DOUBLE: u32 = 11;

/// The cache of one compiled path.
pub struct CompiledSlot {
    pub enabled: bool,
    /// A trace is cached.
    pub valid: bool,
    /// Positions of the inputs whose arrays are kept while a generation lasts.
    pub stable_cross_inputs: Vec<usize>,
    /// The generation that the kept arrays belong to.
    pub stable_generation_key: Option<usize>,
    pub control_flow_specialization_enabled: bool,
    pub control_flow_key: Option<String>,
    /// Positions of the inputs whose shapes key the trace.
    pub dyn_inputs: Vec<usize>,
}

/// The compiled paths of a plan.
#[derive(Clone, Copy, Debug, PartialEq, Eq, Structural)]
pub enum Slot {
    Decode,
    Prefill,
    General,
}

/// The nodes of a fused subgraph in the order they run, and how they may run.
pub struct Plan {
    pub nodes: Vec<NodeDesc>,
    /// An element type that only the CPU computes occurs.
    pub requires_cpu_stream: bool,
    pub dedicated_decode_stream: bool,
    pub native_attention_decode: bool,
    pub compiled: CompiledSlot,
    pub prefill: CompiledSlot,
    pub general: CompiledSlot,
}

/// Some node puts out a 64-bit floating-point tensor.
pub open spec fn has_double_output(nodes: Seq<NodeDesc>) -> bool {
    exists|n: int, i: int|
        0 <= n < nodes.len() && 0 <= i < nodes[n].outputs@.len() && (
        #[trigger] nodes[n].outputs@[i]).otype == DOUBLE
}

impl CompiledSlot {
    /// Nothing is cached and the path is not used.
    pub open spec fn idle(&self) -> bool {
        &&& !self.enabled
        &&& !self.valid
        &&& self.stable_cross_inputs@.len() == 0
        &&& self.stable_generation_key is None
        &&& !self.control_flow_specialization_enabled
        &&& self.control_flow_key is None
        &&& self.dyn_inputs@.len() == 0
    }

    pub fn new() -> (slot: Self)
        ensures
            slot.idle(),
            !slot.enabled,
            !slot.valid,
            slot.stable_cross_inputs@.len() == 0,
            slot.stable_generation_key is None,
            slot.control_flow_key is None,
            slot.dyn_inputs@.len() == 0,
    {
        CompiledSlot {
            enabled: false,
            valid: false,
            stable_cross_inputs: Vec::new(),
            stable_generation_key: None,
            control_flow_specialization_enabled: false,
            control_flow_key: None,
            dyn_inputs: Vec::new(),
        }
    }
}

impl Plan {
    /// The cache of a compiled path.
    pub open spec fn slot(&self, slot: Slot) -> CompiledSlot {
        match slot {
            Slot::Decode => self.compiled,
            Slot::Prefill => self.prefill,
            Slot::General => self.general,
        }
    }

    /// A plan that runs node by node.
    pub fn new(nodes: Vec<NodeDesc>) -> (plan: Plan)
        ensures
            plan.nodes == nodes,
            plan.requires_cpu_stream == has_double_output(nodes@),
            plan.requires_cpu_stream <==> exists|n: int, i: int|
                0 <= n < nodes@.len() && 0 <= i < nodes@[n].outputs@.len() && (
                #[trigger] nodes@[n].outputs@[i]).otype == 11,
            !plan.dedicated_decode_stream,
            !plan.native_attention_decode,
            plan.compiled.idle(),
            plan.prefill.idle(),
            plan.general.idle(),
    {
        let mut double: bool = false;
        let mut n: usize = 0;
        while n < nodes.len()
            invariant
                n <= nodes@.len(),
                double == exists|m: int, i: int|
                    0 <= m < n && 0 <= i < nodes@[m].outputs@.len() && (
                    #[trigger] nodes@[m].outputs@[i]).otype == DOUBLE,
            decreases nodes@.len() - n,
        {
            let ghost opening = double;
            let mut i: usize = 0;
            while i < nodes[n].outputs.len()
                invariant
                    n < nodes@.len(),
                    i <= nodes@[n as int].outputs@.len(),
                    double == (opening || exists|k: int|
                        0 <= k < i && (#[trigger] nodes@[n as int].outputs@[k]).otype == DOUBLE),
                decreases nodes@[n as int].outputs@.len() - i,
            {
                if nodes[n].outputs[i].otype == DOUBLE {
                    double = true;
                }
                i = i + 1;
            }
            proof {
                assert(double == exists|m: int, i: int|
                    0 <= m < n + 1 && 0 <= i < nodes@[m].outputs@.len() && (
                    #[trigger] nodes@[m].outputs@[i]).otype == DOUBLE) by {
                    if opening {
                        let (m, i) = choose|m: int, i: int|
                            0 <= m < n && 0 <= i < nodes@[m].outputs@.len() && (
                            #[trigger] nodes@[m].outputs@[i]).otype == DOUBLE;
                        assert(nodes@[m].outputs@[i].otype == DOUBLE);
                    }
                }
            }
            n = n + 1;
        }
        Plan {
            nodes,
            requires_cpu_stream: double,
            dedicated_decode_stream: false,
            native_attention_decode: false,
            compiled: CompiledSlot::new(),
            prefill: CompiledSlot::new(),
            general: CompiledSlot::new(),
        }
    }
}

} // verus!
