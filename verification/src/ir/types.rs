//! The plain values that the intermediate representation is made of.

use vstd::prelude::*;

verus! {

/// Identifies an operation.
pub type OpId = usize;

/// Identifies a block.
pub type BlockId = usize;

/// Identifies a region.
pub type RegionId = usize;

/// How the bits of an integer are read.
#[derive(Clone, Copy, Debug, PartialEq, Eq, Structural, Hash)]
pub enum Signedness {
    Signed,
    Unsigned,
    Signless,
}

/// The type of a value.
#[derive(Clone, Copy, Debug, PartialEq, Eq, Structural, Hash)]
pub enum Type {
    /// The index type of the index dialect.
    Index,
    /// A builtin integer type.
    Integer { width: u32, signedness: Signedness },
    /// A type of another dialect.
    Other(OtherType),
}

/// A type of another dialect, as far as control flow has to know it.
#[derive(Clone, Copy, Debug, PartialEq, Eq, Structural, Hash)]
pub struct OtherType {
    /// Tells types of other dialects apart.
    pub id: u64,
    /// Does its dialect convert it to a type of the LLVM dialect?
    pub converts_to_llvm: bool,
}

/// Where an entity stands in the text it was read from.
#[derive(Clone, Copy, Debug, PartialEq, Eq, Structural, Hash)]
pub enum Location {
    Unknown,
    Known(u64),
}

/// An SSA value: the result of an operation, or an argument of a block.
#[derive(Clone, Copy, Debug, PartialEq, Eq, Structural, Hash)]
pub enum Value {
    OpResult { op: OpId, idx: usize },
    BlockArgument { block: BlockId, idx: usize },
}

/// The predicate of an integer comparison.
#[derive(Clone, Copy, Debug, PartialEq, Eq, Structural, Hash)]
pub enum ICmpPredicate {
    EQ,
    NE,
    SLT,
    SLE,
    SGT,
    SGE,
    ULT,
    ULE,
    UGT,
    UGE,
}

/// Which overflows an integer addition rules out.
#[derive(Clone, Copy, Debug, PartialEq, Eq, Structural, Hash)]
pub struct OverflowFlags {
    pub nsw: bool,
    pub nuw: bool,
}

/// An operation of another dialect, as far as control flow has to know it.
#[derive(Clone, Copy, Debug, PartialEq, Eq, Structural, Hash)]
pub struct OtherOp {
    /// Tells operations of other dialects apart.
    pub id: u64,
    /// Does it end a block?
    pub terminator: bool,
    /// Does it say which operands it forwards to which successor?
    pub branch: bool,
    /// Does its dialect convert it to the LLVM dialect?
    pub converts_to_llvm: bool,
}

/// What an operation is.
#[derive(Clone, Copy, Debug, PartialEq, Eq, Structural, Hash)]
pub enum OpKind {
    CfYield,
    CfBr,
    CfCondBr,
    CfFor,
    CfNDFor,
    CfExecuteRegion,
    CfIf,
    LlvmBr,
    LlvmCondBr,
    LlvmICmp(ICmpPredicate),
    LlvmAdd(OverflowFlags),
    Other(OtherOp),
}

impl OpKind {
    /// May an operation of this kind end a block?
    pub open spec fn terminates(self) -> bool {
        match self {
            OpKind::CfYield | OpKind::CfBr | OpKind::CfCondBr | OpKind::LlvmBr
            | OpKind::LlvmCondBr => true,
            OpKind::Other(other) => other.terminator,
            _ => false,
        }
    }

    /// Does an operation of this kind say which operands it forwards to which successor?
    pub open spec fn branches(self) -> bool {
        match self {
            OpKind::CfBr | OpKind::CfCondBr | OpKind::LlvmBr | OpKind::LlvmCondBr => true,
            OpKind::Other(other) => other.branch,
            _ => false,
        }
    }

    /// Is this the kind of an operation that ends a block?
    pub fn is_terminator(self) -> (b: bool)
        ensures
            b == self.terminates(),
    {
        match self {
            OpKind::CfYield | OpKind::CfBr | OpKind::CfCondBr | OpKind::LlvmBr
            | OpKind::LlvmCondBr => true,
            OpKind::Other(other) => other.terminator,
            _ => false,
        }
    }

    /// Is this the kind of a branch?
    pub fn is_branch(self) -> (b: bool)
        ensures
            b == self.branches(),
    {
        match self {
            OpKind::CfBr | OpKind::CfCondBr | OpKind::LlvmBr | OpKind::LlvmCondBr => true,
            OpKind::Other(other) => other.branch,
            _ => false,
        }
    }
}

impl Type {
    /// The signless integer type of the given width.
    pub open spec fn signless(width: u32) -> Type {
        Type::Integer { width, signedness: Signedness::Signless }
    }

    /// The signless 64-bit integer type.
    pub fn i64() -> (ty: Type)
        ensures
            ty == Type::signless(64),
            ty == (Type::Integer { width: 64, signedness: Signedness::Signless }),
    {
        Type::Integer { width: 64, signedness: Signedness::Signless }
    }

    /// The signless 1-bit integer type.
    pub fn i1() -> (ty: Type)
        ensures
            ty == Type::signless(1),
            ty == (Type::Integer { width: 1, signedness: Signedness::Signless }),
    {
        Type::Integer { width: 1, signedness: Signedness::Signless }
    }
}

/// Where in a block operations are to be inserted.
#[derive(Clone, Copy, Debug, PartialEq, Eq, Structural, Hash)]
pub enum OpInsertionPoint {
    Unset,
    AtBlockStart(BlockId),
    AtBlockEnd(BlockId),
    BeforeOperation(OpId),
    AfterOperation(OpId),
}

/// Where in a region a block is to be inserted.
#[derive(Clone, Copy, Debug, PartialEq, Eq, Structural, Hash)]
pub enum BlockInsertionPoint {
    AtRegionStart(RegionId),
    AtRegionEnd(RegionId),
    BeforeBlock(BlockId),
    AfterBlock(BlockId),
}

} // verus!
