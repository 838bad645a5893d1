//! What the operator registry tells the planner about a node.

use vstd::prelude::*;

verus! {

/// How a compiled trace of a node depends on its input shapes, as the partitioner sees it.
#[derive(Clone, Copy, Debug, PartialEq, Eq, Structural)]
pub enum CompilePartitionClass {
    Shapeless,
    ShapeKeyed,
    Eager,
}

/// How a compiled trace of a node depends on its input shapes.
#[derive(Clone, Copy, Debug, PartialEq, Eq, Structural)]
pub enum CompileShapeSafety {
    Shapeless,
    ShapeKeyed,
    Eager,
}

impl CompileShapeSafety {
    /// The partition class of a safety.
    pub open spec fn class(self) -> CompilePartitionClass {
        match self {
            CompileShapeSafety::Shapeless => CompilePartitionClass::Shapeless,
            CompileShapeSafety::ShapeKeyed => CompilePartitionClass::ShapeKeyed,
            CompileShapeSafety::Eager => CompilePartitionClass::Eager,
        }
    }

    pub fn partition_class(self) -> (class: CompilePartitionClass)
        ensures
            class == self.class(),
            class is Shapeless <==> self is Shapeless,
            class is ShapeKeyed <==> self is ShapeKeyed,
            class is Eager <==> self is Eager,
    {
        match self {
            CompileShapeSafety::Shapeless => CompilePartitionClass::Shapeless,
            CompileShapeSafety::ShapeKeyed => CompilePartitionClass::ShapeKeyed,
            CompileShapeSafety::Eager => CompilePartitionClass::Eager,
        }
    }
}

/// The operators that this library translates and claims itself.
#[derive(Clone, Copy, Debug, PartialEq, Eq, Structural)]
pub enum Operator {
    If,
    Scan,
    Loop,
}

/// An operator under its name. A missing opset bound admits every opset.
pub struct OpRegistration {
    pub domain: String,
    pub op_type: String,
    pub min_opset: Option<i32>,
    pub max_opset: Option<i32>,
    pub operator: Operator,
}

/// A registered operator; `reason` says why its traces depend on shapes.
pub struct OpEntry {
    pub registration: OpRegistration,
    pub safety: CompileShapeSafety,
    pub reason: String,
}

/// The registered operators in the order of their registration.
pub struct OpRegistry {
    pub entries: Vec<OpEntry>,
}

/// What an entry says.
#[verifier::ext_equal]
pub ghost struct EntryModel {
    pub domain: Seq<char>,
    pub op_type: Seq<char>,
    pub min_opset: Option<i32>,
    pub max_opset: Option<i32>,
    pub operator: Operator,
    pub safety: CompileShapeSafety,
    pub reason: Seq<char>,
}

impl View for OpEntry {
    type V = EntryModel;

    open spec fn view(&self) -> EntryModel {
        EntryModel {
            domain: self.registration.domain@,
            op_type: self.registration.op_type@,
            min_opset: self.registration.min_opset,
            max_opset: self.registration.max_opset,
            operator: self.registration.operator,
            safety: self.safety,
            reason: self.reason@,
        }
    }
}

impl View for OpRegistry {
    type V = Seq<EntryModel>;

    open spec fn view(&self) -> Seq<EntryModel> {
        Seq::new(self.entries@.len(), |i: int| self.entries@[i]@)
    }
}

impl OpRegistry {
    pub fn new() -> (registry: Self)
        ensures
            registry@ == Seq::<EntryModel>::empty(),
    {
        let registry = OpRegistry { entries: Vec::new() };
        assert(registry@ =~= Seq::<EntryModel>::empty());
        registry
    }

    fn add_entry(&mut self, entry: OpEntry)
        ensures
            final(self)@ == old(self)@.push(entry@),
    {
        let ghost before = self@;
        self.entries.push(entry);
        assert(self@ =~= before.push(entry@));
    }

    /// Registers an operator whose traces do not depend on shapes.
    pub fn register_shapeless(&mut self, registration: OpRegistration)
        ensures
            final(self)@ == old(self)@.push(
                EntryModel {
                    domain: registration.domain@,
                    op_type: registration.op_type@,
                    min_opset: registration.min_opset,
                    max_opset: registration.max_opset,
                    operator: registration.operator,
                    safety: CompileShapeSafety::Shapeless,
                    reason: Seq::empty(),
                },
            ),
    {
        self.add_entry(
            OpEntry {
                registration,
                safety: CompileShapeSafety::Shapeless,
                reason: String::new(),
            },
        );
    }

    /// Registers an operator whose traces hold for the shapes they were made with.
    pub fn register_shape_keyed(&mut self, registration: OpRegistration, reason: &str)
        ensures
            final(self)@ == old(self)@.push(
                EntryModel {
                    domain: registration.domain@,
                    op_type: registration.op_type@,
                    min_opset: registration.min_opset,
                    max_opset: registration.max_opset,
                    operator: registration.operator,
                    safety: CompileShapeSafety::ShapeKeyed,
                    reason: reason@,
                },
            ),
    {
        self.add_entry(
            OpEntry {
                registration,
                safety: CompileShapeSafety::ShapeKeyed,
                reason: reason.to_owned(),
            },
        );
    }
}

} // verus!
