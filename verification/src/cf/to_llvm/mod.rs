//! Convert control flow dialect to LLVM dialect.

pub mod branch;
pub mod conditions;
pub mod continuation;
pub mod execute_region;
pub mod for_op;
pub mod forwarding;
pub mod if_op;
pub mod layout;
pub mod llvm_ops;
pub mod meaning;
pub mod nd_for;
pub mod progress;
pub mod readiness;
pub mod selection;
pub mod typing;

pub use for_op::ForOpConversionErr;
pub use nd_for::NDForOpConversionErr;

use crate::cf::ops::{BrOp, CondBrOp, ExecuteRegionOp, ForOp, IfOp, NDForOp};
use crate::ir::context::Context;
use crate::ir::model::Ir;
use crate::ir::rewriter::IRRewriter;
use crate::ir::types::{OpId, OpInsertionPoint, OpKind, Signedness, Type};
use vstd::prelude::*;

verus! {

/// The conversion from control flow to the LLVM dialect.
#[derive(Debug)]
pub struct CFToLLVM;

/// Why an operation cannot be converted.
#[derive(Debug, Clone, Copy, PartialEq, Eq, Structural)]
pub enum ConversionErr {
    For(ForOpConversionErr),
    NDFor(NDForOpConversionErr),
}

impl CFToLLVM {
    /// Is this the kind of an operation that is converted?
    pub open spec fn converts(kind: OpKind) -> bool {
        match kind {
            OpKind::CfBr | OpKind::CfCondBr | OpKind::CfFor | OpKind::CfNDFor
            | OpKind::CfExecuteRegion | OpKind::CfIf => true,
            OpKind::Other(other) => other.converts_to_llvm,
            _ => false,
        }
    }

    /// Is this a type that is converted?
    pub open spec fn converts_type(ty: Type) -> bool {
        match ty {
            Type::Index => true,
            Type::Integer { .. } => false,
            Type::Other(other) => other.converts_to_llvm,
        }
    }

    /// Can the operation, which is one of control flow, be lowered as it is?
    pub open spec fn lowerable(ir: Ir, op: OpId) -> bool {
        match ir.ops[op].kind {
            OpKind::CfBr => (BrOp { op }).lowerable(ir),
            OpKind::CfCondBr => (CondBrOp { op }).lowerable(ir),
            OpKind::CfFor => (ForOp { op }).lowerable(ir),
            OpKind::CfNDFor => (NDForOp { op }).lowerable(ir),
            OpKind::CfExecuteRegion => (ExecuteRegionOp { op }).lowerable(ir),
            OpKind::CfIf => (IfOp { op }).lowerable(ir),
            _ => false,
        }
    }

    /// The representation after lowering the operation.
    pub open spec fn lowered(ir: Ir, op: OpId) -> Ir {
        match ir.ops[op].kind {
            OpKind::CfBr => (BrOp { op }).lowered(ir),
            OpKind::CfCondBr => (CondBrOp { op }).lowered(ir),
            OpKind::CfFor => (ForOp { op }).lowered(ir),
            OpKind::CfNDFor => (NDForOp { op }).lowered(ir),
            OpKind::CfExecuteRegion => (ExecuteRegionOp { op }).lowered(ir),
            OpKind::CfIf => (IfOp { op }).lowered(ir),
            _ => ir,
        }
    }

    /// Should this operation be converted?
    pub fn can_convert_op(&self, ctx: &Context, op: OpId) -> (b: bool)
        requires
            ctx@.ops.contains_key(op),
        ensures
            b == CFToLLVM::converts(ctx@.ops[op].kind),
    {
        match ctx.kind(op) {
            OpKind::CfBr | OpKind::CfCondBr | OpKind::CfFor | OpKind::CfNDFor
            | OpKind::CfExecuteRegion | OpKind::CfIf => true,
            OpKind::Other(other) => other.converts_to_llvm,
            _ => false,
        }
    }

    /// Should this type be converted?
    pub fn can_convert_type(&self, ty: Type) -> (b: bool)
        ensures
            b == CFToLLVM::converts_type(ty),
    {
        match ty {
            Type::Index => true,
            Type::Integer { .. } => false,
            Type::Other(other) => other.converts_to_llvm,
        }
    }

    /// Converts the index type. Types of other dialects are converted by those.
    pub fn convert_type(&self, ty: Type) -> (converted: Type)
        requires
            ty is Index,
        ensures
            converted == Type::signless(64),
            converted == ty.converted(),
            converted == (Type::Integer { width: 64, signedness: Signedness::Signless }),
    {
        Type::i64()
    }

    /// Lowers an operation of control flow. The insertion point is before it.
    pub fn rewrite(&self, ctx: &mut Context, rewriter: &mut IRRewriter, op: OpId) -> (result: Result<
        (),
        ConversionErr,
    >)
        requires
            old(ctx).wf(),
            old(ctx)@.ops.contains_key(op),
            CFToLLVM::lowerable(old(ctx)@, op),
            old(rewriter).insertion_point() == OpInsertionPoint::BeforeOperation(op),
        ensures
            result == Ok::<(), ConversionErr>(()),
            final(ctx).wf(),
            final(ctx).extends(old(ctx).journal()),
            final(ctx)@ == CFToLLVM::lowered(old(ctx)@, op),
    {
        match ctx.kind(op) {
            OpKind::CfBr => {
                (BrOp { op }).rewrite(ctx, rewriter);
            },
            OpKind::CfCondBr => {
                (CondBrOp { op }).rewrite(ctx, rewriter);
            },
            OpKind::CfFor => {
                match (ForOp { op }).rewrite(ctx, rewriter) {
                    Ok(()) => {},
                    Err(err) => {
                        return Err(ConversionErr::For(err));
                    },
                }
            },
            OpKind::CfNDFor => {
                match (NDForOp { op }).rewrite(ctx, rewriter) {
                    Ok(()) => {},
                    Err(err) => {
                        return Err(ConversionErr::NDFor(err));
                    },
                }
            },
            OpKind::CfExecuteRegion => {
                (ExecuteRegionOp { op }).rewrite(ctx, rewriter);
            },
            OpKind::CfIf => {
                (IfOp { op }).rewrite(ctx, rewriter);
            },
            _ => {},
        }
        Ok(())
    }

    /// Lowers any operation that is to be converted: one of control flow as above, and one of
    /// another dialect by `foreign`. That is called once, with the context, the rewriter and the
    /// operation, and what it returns is returned.
    pub fn rewrite_any<E, F>(
        &self,
        ctx: &mut Context,
        rewriter: &mut IRRewriter,
        op: OpId,
        foreign: F,
    ) -> (result: Result<(), E>) where F: FnOnce(&mut Context, &mut IRRewriter, OpId) -> Result<
        (),
        E,
    >
        requires
            old(ctx)@.ops.contains_key(op),
            CFToLLVM::converts(old(ctx)@.ops[op].kind),
            if old(ctx)@.ops[op].kind is Other {
                forall|inner: &mut Context, inserter: &mut IRRewriter|
                    *inner == *old(ctx) && *inserter == *old(rewriter) ==> #[trigger] call_requires(
                        foreign,
                        (inner, inserter, op),
                    )
            } else {
                &&& old(ctx).wf()
                &&& CFToLLVM::lowerable(old(ctx)@, op)
                &&& old(rewriter).insertion_point() == OpInsertionPoint::BeforeOperation(op)
            },
        ensures
            if old(ctx)@.ops[op].kind is Other {
                exists|inner: &mut Context, inserter: &mut IRRewriter|
                    {
                        &&& *inner == *old(ctx)
                        &&& *inserter == *old(rewriter)
                        &&& #[trigger] call_ensures(foreign, (inner, inserter, op), result)
                        &&& *final(ctx) == *final(inner)
                        &&& *final(rewriter) == *final(inserter)
                    }
            } else {
                &&& result is Ok
                &&& final(ctx).wf()
                &&& final(ctx).extends(old(ctx).journal())
                &&& final(ctx)@ == CFToLLVM::lowered(old(ctx)@, op)
            },
    {
        match ctx.kind(op) {
            OpKind::Other(_) => foreign(ctx, rewriter, op),
            _ => {
                // This does not fail.
                let _ = self.rewrite(ctx, rewriter, op);
                Ok(())
            },
        }
    }
}

} // verus!
