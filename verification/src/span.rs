//! The source spans of ops.
use vstd::prelude::*;

use crate::graph::Graph;
use crate::ir::Op;
use crate::link::Link;
use crate::value::SourceSpan;

verus! {

/// The span of source text an op comes from.
pub open spec fn op_span(op: Op) -> SourceSpan {
    match op {
        Op::Enf(x) => x.span,
        Op::Boundary(x) => x.span,
        Op::Add(x) => x.span,
        Op::Sub(x) => x.span,
        Op::Mul(x) => x.span,
        Op::Exp(x) => x.span,
        Op::If(x) => x.span,
        Op::For(x) => x.span,
        Op::Call(x) => x.span,
        Op::Fold(x) => x.span,
        Op::Vector(x) => x.span,
        Op::Matrix(x) => x.span,
        Op::Accessor(x) => x.span,
        Op::BusOp(x) => x.span,
        Op::Parameter(x) => x.span,
        Op::Value(x) => x.value.span,
        Op::Nil(s) => s,
    }
}

impl Link<Op> {
    /// The span of source text the op comes from.
    pub fn span(&self, g: &Graph) -> (r: SourceSpan)
        requires
            self.ptr < g.ops.len(),
        ensures
            r == op_span(g.ops@[self.ptr as int]),
    {
        match &g.ops[self.ptr] {
            Op::Enf(x) => x.span,
            Op::Boundary(x) => x.span,
            Op::Add(x) => x.span,
            Op::Sub(x) => x.span,
            Op::Mul(x) => x.span,
            Op::Exp(x) => x.span,
            Op::If(x) => x.span,
            Op::For(x) => x.span,
            Op::Call(x) => x.span,
            Op::Fold(x) => x.span,
            Op::Vector(x) => x.span,
            Op::Matrix(x) => x.span,
            Op::Accessor(x) => x.span,
            Op::BusOp(x) => x.span,
            Op::Parameter(x) => x.span,
            Op::Value(x) => x.value.span,
            Op::Nil(s) => *s,
        }
    }
}

} // verus!
