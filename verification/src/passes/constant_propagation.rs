//! Constant propagation: fold arithmetic on constants, apply the algebraic identities of `+`,
//! `-`, `*` and `^`, and resolve accessors with constant indices.
use vstd::prelude::*;

use crate::graph::{is_owner_op, node_op_ptr, same_but_views, Graph};
use crate::ir::{is_none_op, op_children, Bus, MirAccessType, Node, Op, Parent, Value};
use crate::link::Link;
use crate::passes::{
    accessor_visit_defined, accessor_visit_is_defined, accessor_visit_outcome, failed_with, grows,
    handle_accessor_visit, holds_value, lemma_accessor_result_fits, lemma_created_grows,
    should_skip_accessor_unroll, skip_unroll, CompileError, Diagnostic, DiagnosticKind,
    DiagnosticsHandler,
};
use crate::span::op_span;
use crate::views::{frame, node_live_op, node_live_root};
use crate::value::{ConstantValue, MirValue, SourceSpan, SpannedMirValue};

verus! {

/// `b` raised to the power `e`.
pub open spec fn power(b: int, e: nat) -> int
    decreases e,
{
    if e == 0 {
        1
    } else {
        power(b, (e - 1) as nat) * b
    }
}

/// A power of a positive base does not decrease as the exponent grows.
pub proof fn lemma_power_monotone(b: int, e1: nat, e2: nat)
    requires
        b >= 1,
        e1 <= e2,
    ensures
        1 <= power(b, e1) <= power(b, e2),
    decreases e2,
{
    if e2 > 0 {
        let e0: nat = if e1 < e2 {
            e1
        } else {
            (e2 - 1) as nat
        };
        lemma_power_monotone(b, e0, (e2 - 1) as nat);
        let p = power(b, (e2 - 1) as nat);
        assert(p <= p * b) by (nonlinear_arith)
            requires
                p >= 1,
                b >= 1,
        ;
    }
}

/// A power of a non-negative base is non-negative.
proof fn lemma_power_nonneg(b: int, e: nat)
    requires
        b >= 0,
    ensures
        power(b, e) >= 0,
    decreases e,
{
    if e > 0 {
        lemma_power_nonneg(b, (e - 1) as nat);
        let q = power(b, (e - 1) as nat);
        assert(q * b >= 0) by (nonlinear_arith)
            requires
                q >= 0,
                b >= 0,
        ;
    }
}

/// Powers of zero and one.
proof fn lemma_power_small_base(b: int, e: nat)
    requires
        b == 0 || b == 1,
    ensures
        power(b, e) == (if b == 1 || e == 0 {
            1int
        } else {
            0int
        }),
    decreases e,
{
    if e > 0 {
        lemma_power_small_base(b, (e - 1) as nat);
    }
}

/// `base` to the power `exp`, or `None` where the result does not fit in a `u64`.
pub fn checked_pow(base: u64, exp: u32) -> (r: Option<u64>)
    ensures
        r == (if power(base as int, exp as nat) <= u64::MAX {
            Some(power(base as int, exp as nat) as u64)
        } else {
            None
        }),
{
    if base <= 1 {
        proof {
            lemma_power_small_base(base as int, exp as nat);
        }
        return if base == 0 && exp != 0 {
            Some(0)
        } else {
            Some(1)
        };
    }
    let mut acc: u64 = 1;
    let mut i: u32 = 0;
    while i < exp
        invariant
            base >= 2,
            i <= exp,
            acc == power(base as int, i as nat),
        decreases exp - i,
    {
        match acc.checked_mul(base) {
            Some(next) => {
                acc = next;
                i = i + 1;
            },
            None => {
                proof {
                    lemma_power_monotone(base as int, (i + 1) as nat, exp as nat);
                }
                return None;
            },
        }
    }
    Some(acc)
}

/// The constant an op stands for, looking through accessors into vectors and matrices at
/// constant indices.
pub open spec fn inner_const(g: Graph, p: int) -> Option<u64>
    decreases g.rank@[p],
    when g.wf() && 0 <= p < g.ops.len()
{
    match g.ops@[p] {
        Op::Value(v) => match v.value.value {
            MirValue::Constant(ConstantValue::Felt(n)) => Some(n),
            _ => None,
        },
        Op::Accessor(a) => {
            let x = a.indexable.ptr as int;
            proof {
                assert(op_children(g.ops@[p])[0] == a.indexable);
            }
            match (a.access_type, g.ops@[x]) {
                (MirAccessType::Default, _) => inner_const(g, x),
                (MirAccessType::Index(i), Op::Vector(v)) => {
                    proof {
                        assert(op_children(g.ops@[p])[1] == i);
                    }
                    match inner_const(g, i.ptr as int) {
                        Some(k) => if (k as usize) < v.elements.len() {
                            let e = v.elements@[k as usize as int];
                            proof {
                                assert(op_children(g.ops@[x])[k as usize as int] == e);
                            }
                            inner_const(g, e.ptr as int)
                        } else {
                            None
                        },
                        None => None,
                    }
                },
                (MirAccessType::Matrix(rw, c), Op::Matrix(m)) => {
                    proof {
                        assert(op_children(g.ops@[p])[1] == rw);
                        assert(op_children(g.ops@[p])[2] == c);
                    }
                    match (inner_const(g, rw.ptr as int), inner_const(g, c.ptr as int)) {
                        (Some(i), Some(j)) => if (i as usize) < m.elements.len() {
                            let row = m.elements@[i as usize as int];
                            proof {
                                assert(op_children(g.ops@[x])[i as usize as int] == row);
                            }
                            match g.ops@[row.ptr as int] {
                                Op::Vector(rv) => if (j as usize) < rv.elements.len() {
                                    let e = rv.elements@[j as usize as int];
                                    proof {
                                        assert(op_children(g.ops@[row.ptr as int])[j as usize as int] == e);
                                    }
                                    inner_const(g, e.ptr as int)
                                } else {
                                    None
                                },
                                _ => None,
                            }
                        } else {
                            None
                        },
                        _ => None,
                    }
                },
                _ => None,
            }
        },
        _ => None,
    }
}

/// Looking for the constant an op stands for does not fault: every accessor on the way that
/// indexes a vector or matrix does so at constant indices.
pub open spec fn inner_const_defined(g: Graph, p: int) -> bool
    decreases g.rank@[p],
    when g.wf() && 0 <= p < g.ops.len()
{
    match g.ops@[p] {
        Op::Accessor(a) => {
            let x = a.indexable.ptr as int;
            proof {
                assert(op_children(g.ops@[p])[0] == a.indexable);
            }
            match (a.access_type, g.ops@[x]) {
                (MirAccessType::Default, _) => inner_const_defined(g, x),
                (MirAccessType::Index(i), Op::Vector(v)) => {
                    proof {
                        assert(op_children(g.ops@[p])[1] == i);
                    }
                    &&& inner_const_defined(g, i.ptr as int)
                    &&& inner_const(g, i.ptr as int) is Some
                    &&& {
                        let k = inner_const(g, i.ptr as int)->Some_0 as usize;
                        k < v.elements.len() ==> {
                            let e = v.elements@[k as int];
                            proof {
                                assert(op_children(g.ops@[x])[k as int] == e);
                            }
                            inner_const_defined(g, e.ptr as int)
                        }
                    }
                },
                (MirAccessType::Matrix(rw, c), Op::Matrix(m)) => {
                    proof {
                        assert(op_children(g.ops@[p])[1] == rw);
                        assert(op_children(g.ops@[p])[2] == c);
                    }
                    &&& inner_const_defined(g, rw.ptr as int)
                    &&& inner_const(g, rw.ptr as int) is Some
                    &&& inner_const_defined(g, c.ptr as int)
                    &&& inner_const(g, c.ptr as int) is Some
                    &&& {
                        let i = inner_const(g, rw.ptr as int)->Some_0 as usize;
                        let j = inner_const(g, c.ptr as int)->Some_0 as usize;
                        i < m.elements.len() ==> {
                            let row = m.elements@[i as int];
                            proof {
                                assert(op_children(g.ops@[x])[i as int] == row);
                            }
                            match g.ops@[row.ptr as int] {
                                Op::Vector(rv) => j < rv.elements.len() ==> {
                                    let e = rv.elements@[j as int];
                                    proof {
                                        assert(op_children(g.ops@[row.ptr as int])[j as int] == e);
                                    }
                                    inner_const_defined(g, e.ptr as int)
                                },
                                _ => true,
                            }
                        }
                    }
                },
                _ => true,
            }
        },
        _ => true,
    }
}

/// The constant an op stands for (as [inner_const]), or `None` where looking for it faults (an
/// accessor on the way has an index that is not constant).
pub fn try_inner_const(g: &Graph, value: &Link<Op>) -> (r: Option<Option<u64>>)
    requires
        g.wf(),
        value.ptr < g.ops.len(),
    ensures
        r == (if inner_const_defined(*g, value.ptr as int) {
            Some(inner_const(*g, value.ptr as int))
        } else {
            None
        }),
    decreases g.rank@[value.ptr as int],
{
    let p = value.ptr;
    match &g.ops[p] {
        Op::Value(v) => match &v.value.value {
            MirValue::Constant(ConstantValue::Felt(n)) => Some(Some(*n)),
            _ => Some(None),
        },
        Op::Accessor(a) => {
            let x = a.indexable;
            proof {
                assert(op_children(g.ops@[p as int])[0] == x);
            }
            match (&a.access_type, &g.ops[x.ptr]) {
                (MirAccessType::Default, _) => try_inner_const(g, &x),
                (MirAccessType::Index(i), Op::Vector(v)) => {
                    proof {
                        assert(op_children(g.ops@[p as int])[1] == *i);
                    }
                    let k = match try_inner_const(g, i) {
                        Some(Some(k)) => k as usize,
                        _ => return None,
                    };
                    if k < v.elements.len() {
                        let e = v.elements[k];
                        proof {
                            assert(op_children(g.ops@[x.ptr as int])[k as int] == e);
                        }
                        try_inner_const(g, &e)
                    } else {
                        Some(None)
                    }
                },
                (MirAccessType::Matrix(rw, c), Op::Matrix(m)) => {
                    proof {
                        assert(op_children(g.ops@[p as int])[1] == *rw);
                        assert(op_children(g.ops@[p as int])[2] == *c);
                    }
                    let i = match try_inner_const(g, rw) {
                        Some(Some(i)) => i as usize,
                        _ => return None,
                    };
                    let j = match try_inner_const(g, c) {
                        Some(Some(j)) => j as usize,
                        _ => return None,
                    };
                    if i < m.elements.len() {
                        let row = m.elements[i];
                        proof {
                            assert(op_children(g.ops@[x.ptr as int])[i as int] == row);
                        }
                        match &g.ops[row.ptr] {
                            Op::Vector(rv) => {
                                if j < rv.elements.len() {
                                    let e = rv.elements[j];
                                    proof {
                                        assert(op_children(g.ops@[row.ptr as int])[j as int] == e);
                                    }
                                    try_inner_const(g, &e)
                                } else {
                                    Some(None)
                                }
                            },
                            _ => Some(None),
                        }
                    } else {
                        Some(None)
                    }
                },
                _ => Some(None),
            }
        },
        _ => Some(None),
    }
}

/// The constant an op stands for, looking through accessors into vectors and matrices at
/// constant indices.
pub fn get_inner_const(g: &Graph, value: &Link<Op>) -> (r: Option<u64>)
    requires
        g.wf(),
        value.ptr < g.ops.len(),
        inner_const_defined(*g, value.ptr as int),
    ensures
        r == inner_const(*g, value.ptr as int),
{
    match try_inner_const(g, value) {
        Some(r) => r,
        None => None,
    }
}

/// The constant that folding the binary op `op` on the constants `x` and `y` gives: `None` where
/// the result does not fit in a `u64` (or `op` is not `+`, `-`, `*` or `^`), and an error for an
/// exponent beyond `u32`.
pub open spec fn fold_binary(op: Op, x: u64, y: u64) -> Result<Option<u64>, CompileError> {
    match op {
        Op::Add(_) => Ok(
            if x + y <= u64::MAX {
                Some((x + y) as u64)
            } else {
                None
            },
        ),
        Op::Sub(_) => Ok(
            if x >= y {
                Some((x - y) as u64)
            } else {
                None
            },
        ),
        Op::Mul(_) => Ok(
            if x * y <= u64::MAX {
                Some((x * y) as u64)
            } else {
                None
            },
        ),
        Op::Exp(_) => if y > u32::MAX {
            Err(CompileError::Failed)
        } else {
            Ok(
                if power(x as int, y as nat) <= u64::MAX {
                    Some(power(x as int, y as nat) as u64)
                } else {
                    None
                },
            )
        },
        _ => Ok(None),
    }
}

/// `r` (in `b`) is a new value op holding the constant `c`, `a` grown by it.
pub open spec fn new_constant(a: Graph, b: Graph, c: u64, span: SourceSpan, r: Link<Op>) -> bool {
    &&& r.ptr == a.ops.len()
    &&& b.ops.len() == a.ops.len() + 1
    &&& holds_value(b.ops@[r.ptr as int], MirValue::Constant(ConstantValue::Felt(c)), span)
}

/// Nothing is rewritten and the graph is unchanged.
pub open spec fn unchanged(a: Graph, b: Graph, r: Result<Option<Link<Op>>, CompileError>) -> bool {
    r == Ok::<Option<Link<Op>>, CompileError>(None) && b == a
}

/// The step faults (an operand's constant cannot be looked for) and the graph is unchanged.
pub open spec fn faulted(a: Graph, b: Graph, r: Result<Option<Link<Op>>, CompileError>) -> bool {
    r == Err::<Option<Link<Op>>, CompileError>(CompileError::Failed) && b == a
}

/// The op is rewritten to `l`, an op of the graph, which is unchanged.
pub open spec fn rewritten_to(a: Graph, b: Graph, r: Result<Option<Link<Op>>, CompileError>, l: Link<Op>) -> bool {
    r == Ok::<Option<Link<Op>>, CompileError>(Some(l)) && b == a
}

/// The op is rewritten to a new value op holding the constant `c`.
pub open spec fn rewritten_to_constant(
    a: Graph,
    b: Graph,
    r: Result<Option<Link<Op>>, CompileError>,
    c: u64,
    span: SourceSpan,
) -> bool {
    &&& r matches Ok(Some(l))
    &&& new_constant(a, b, c, span, r->Ok_0->Some_0)
}

/// The outcome of folding the binary op `op` with operands `lhs` and `rhs`: a new constant
/// where both operands are constants and the result fits.
pub open spec fn fold_outcome(
    a: Graph,
    b: Graph,
    op: Op,
    lhs: Link<Op>,
    rhs: Link<Op>,
    span: SourceSpan,
    r: Result<Option<Link<Op>>, CompileError>,
) -> bool {
    match (inner_const(a, lhs.ptr as int), inner_const(a, rhs.ptr as int)) {
        (Some(x), Some(y)) => match fold_binary(op, x, y) {
            Err(e) => r == Err::<Option<Link<Op>>, CompileError>(e) && b == a,
            Ok(Some(c)) => rewritten_to_constant(a, b, r, c, span),
            Ok(None) => unchanged(a, b, r),
        },
        _ => unchanged(a, b, r),
    }
}

/// A new value op holding the constant `c`.
fn new_felt(g: &mut Graph, c: u64, span: SourceSpan) -> (l: Link<Op>)
    requires
        old(g).wf(),
    ensures
        grows(*old(g), *final(g)),
        new_constant(*old(g), *final(g), c, span, l),
{
    let l = Value::create(
        g,
        SpannedMirValue { span, value: MirValue::Constant(ConstantValue::Felt(c)) },
        span,
    );
    proof {
        lemma_created_grows(*old(g), *g, l);
    }
    l
}

/// Fold the binary op `parent` into the constant it computes, if both operands are constants
/// and the result fits in a `u64`.
fn try_fold_const_binary_op(
    g: &mut Graph,
    lhs: Link<Op>,
    rhs: Link<Op>,
    parent: Link<Op>,
    span: SourceSpan,
) -> (r: Result<Option<Link<Op>>, CompileError>)
    requires
        old(g).wf(),
        lhs.ptr < old(g).ops.len(),
        rhs.ptr < old(g).ops.len(),
        parent.ptr < old(g).ops.len(),
        inner_const_defined(*old(g), lhs.ptr as int),
        inner_const_defined(*old(g), rhs.ptr as int),
    ensures
        grows(*old(g), *final(g)),
        fold_outcome(*old(g), *final(g), old(g).ops@[parent.ptr as int], lhs, rhs, span, r),
{
    let (x, y) = match (get_inner_const(g, &lhs), get_inner_const(g, &rhs)) {
        (Some(x), Some(y)) => (x, y),
        _ => return Ok(None),
    };
    let folded = match &g.ops[parent.ptr] {
        Op::Add(_) => x.checked_add(y),
        Op::Sub(_) => x.checked_sub(y),
        Op::Mul(_) => x.checked_mul(y),
        Op::Exp(_) => {
            if y > 0xffff_ffffu64 {
                return Err(CompileError::Failed);
            }
            checked_pow(x, y as u32)
        },
        _ => None,
    };
    match folded {
        Some(c) => Ok(Some(new_felt(g, c, span))),
        None => Ok(None),
    }
}

/// The constant of an operand, or an error where looking for it faults.
fn operand_const(g: &Graph, value: &Link<Op>) -> (r: Result<Option<u64>, CompileError>)
    requires
        g.wf(),
        value.ptr < g.ops.len(),
    ensures
        r == (if inner_const_defined(*g, value.ptr as int) {
            Ok::<Option<u64>, CompileError>(inner_const(*g, value.ptr as int))
        } else {
            Err::<Option<u64>, CompileError>(CompileError::Failed)
        }),
{
    match try_inner_const(g, value) {
        Some(c) => Ok(c),
        None => Err(CompileError::Failed),
    }
}

/// Whether looking for the constant of the op at `l` does not fault.
pub open spec fn def(g: Graph, l: Link<Op>) -> bool {
    inner_const_defined(g, l.ptr as int)
}

/// The constant the op at `l` stands for.
pub open spec fn ic(g: Graph, l: Link<Op>) -> Option<u64> {
    inner_const(g, l.ptr as int)
}

/// One step on a `+`: `0 + x` and `x + 0` are `x`; constants fold.
pub open spec fn add_step(a: Graph, b: Graph, p: int, r: Result<Option<Link<Op>>, CompileError>) -> bool {
    match a.ops@[p] {
        Op::Add(x) => if !def(a, x.lhs) {
            faulted(a, b, r)
        } else if ic(a, x.lhs) == Some(0u64) {
            rewritten_to(a, b, r, x.rhs)
        } else if !def(a, x.rhs) {
            faulted(a, b, r)
        } else if ic(a, x.rhs) == Some(0u64) {
            rewritten_to(a, b, r, x.lhs)
        } else {
            fold_outcome(a, b, a.ops@[p], x.lhs, x.rhs, x.span, r)
        },
        _ => unchanged(a, b, r),
    }
}

/// One step on a `-`: `x - 0` is `x`; constants fold.
pub open spec fn sub_step(a: Graph, b: Graph, p: int, r: Result<Option<Link<Op>>, CompileError>) -> bool {
    match a.ops@[p] {
        Op::Sub(x) => if !def(a, x.rhs) {
            faulted(a, b, r)
        } else if ic(a, x.rhs) == Some(0u64) {
            rewritten_to(a, b, r, x.lhs)
        } else if !def(a, x.lhs) {
            faulted(a, b, r)
        } else {
            fold_outcome(a, b, a.ops@[p], x.lhs, x.rhs, x.span, r)
        },
        _ => unchanged(a, b, r),
    }
}

/// One step on a `*`: `0 * x` and `x * 0` are `0`, `1 * x` and `x * 1` are `x`; constants
/// fold.
pub open spec fn mul_step(a: Graph, b: Graph, p: int, r: Result<Option<Link<Op>>, CompileError>) -> bool {
    match a.ops@[p] {
        Op::Mul(x) => if !def(a, x.lhs) || !def(a, x.rhs) {
            faulted(a, b, r)
        } else if ic(a, x.lhs) == Some(0u64) || ic(a, x.rhs) == Some(0u64) {
            rewritten_to_constant(a, b, r, 0, x.span)
        } else if ic(a, x.lhs) == Some(1u64) {
            rewritten_to(a, b, r, x.rhs)
        } else if ic(a, x.rhs) == Some(1u64) {
            rewritten_to(a, b, r, x.lhs)
        } else {
            fold_outcome(a, b, a.ops@[p], x.lhs, x.rhs, x.span, r)
        },
        _ => unchanged(a, b, r),
    }
}

/// One step on a `^`: `x ^ 0` is `1` (`0 ^ 0` too), `0 ^ k` is `0` for a constant `k`;
/// constants fold.
pub open spec fn exp_step(a: Graph, b: Graph, p: int, r: Result<Option<Link<Op>>, CompileError>) -> bool {
    match a.ops@[p] {
        Op::Exp(x) => if !def(a, x.rhs) {
            faulted(a, b, r)
        } else if ic(a, x.rhs) == Some(0u64) {
            rewritten_to_constant(a, b, r, 1, x.span)
        } else if !def(a, x.lhs) {
            faulted(a, b, r)
        } else if ic(a, x.lhs) == Some(0u64) {
            if ic(a, x.rhs) is Some {
                rewritten_to_constant(a, b, r, 0, x.span)
            } else {
                unchanged(a, b, r)
            }
        } else {
            fold_outcome(a, b, a.ops@[p], x.lhs, x.rhs, x.span, r)
        },
        _ => unchanged(a, b, r),
    }
}

/// The op an op is rewritten to can take its place: it ranks below it, or has no children.
pub open spec fn fits_below(g: Graph, l: Link<Op>, p: int) -> bool {
    &&& l.ptr < g.ops.len()
    &&& (g.rank@[l.ptr as int] < g.rank@[p] || op_children(g.ops@[l.ptr as int]).len() == 0)
}

/// The result of a step can take the place of the op at `p`.
pub open spec fn result_fits(g: Graph, p: int, r: Result<Option<Link<Op>>, CompileError>) -> bool {
    r matches Ok(Some(l)) ==> fits_below(g, l, p)
}

fn visit_add_bis(g: &mut Graph, add: Link<Op>) -> (r: Result<Option<Link<Op>>, CompileError>)
    requires
        old(g).wf(),
        add.ptr < old(g).ops.len(),
    ensures
        grows(*old(g), *final(g)),
        add_step(*old(g), *final(g), add.ptr as int, r),
        result_fits(*final(g), add.ptr as int, r),
{
    let (lhs, rhs, span) = match &g.ops[add.ptr] {
        Op::Add(x) => (x.lhs, x.rhs, x.span),
        _ => return Ok(None),
    };
    proof {
        assert(op_children(g.ops@[add.ptr as int])[0] == lhs);
        assert(op_children(g.ops@[add.ptr as int])[1] == rhs);
    }
    if operand_const(g, &lhs)? == Some(0) {
        return Ok(Some(rhs));
    }
    if operand_const(g, &rhs)? == Some(0) {
        return Ok(Some(lhs));
    }
    try_fold_const_binary_op(g, lhs, rhs, add, span)
}

fn visit_sub_bis(g: &mut Graph, sub: Link<Op>) -> (r: Result<Option<Link<Op>>, CompileError>)
    requires
        old(g).wf(),
        sub.ptr < old(g).ops.len(),
    ensures
        grows(*old(g), *final(g)),
        sub_step(*old(g), *final(g), sub.ptr as int, r),
        result_fits(*final(g), sub.ptr as int, r),
{
    let (lhs, rhs, span) = match &g.ops[sub.ptr] {
        Op::Sub(x) => (x.lhs, x.rhs, x.span),
        _ => return Ok(None),
    };
    proof {
        assert(op_children(g.ops@[sub.ptr as int])[0] == lhs);
        assert(op_children(g.ops@[sub.ptr as int])[1] == rhs);
    }
    if operand_const(g, &rhs)? == Some(0) {
        return Ok(Some(lhs));
    }
    operand_const(g, &lhs)?;
    try_fold_const_binary_op(g, lhs, rhs, sub, span)
}

fn visit_mul_bis(g: &mut Graph, mul: Link<Op>) -> (r: Result<Option<Link<Op>>, CompileError>)
    requires
        old(g).wf(),
        mul.ptr < old(g).ops.len(),
    ensures
        grows(*old(g), *final(g)),
        mul_step(*old(g), *final(g), mul.ptr as int, r),
        result_fits(*final(g), mul.ptr as int, r),
{
    let (lhs, rhs, span) = match &g.ops[mul.ptr] {
        Op::Mul(x) => (x.lhs, x.rhs, x.span),
        _ => return Ok(None),
    };
    proof {
        assert(op_children(g.ops@[mul.ptr as int])[0] == lhs);
        assert(op_children(g.ops@[mul.ptr as int])[1] == rhs);
    }
    let l = operand_const(g, &lhs)?;
    let c = operand_const(g, &rhs)?;
    if l == Some(0u64) || c == Some(0u64) {
        return Ok(Some(new_felt(g, 0, span)));
    }
    if l == Some(1u64) {
        return Ok(Some(rhs));
    }
    if c == Some(1u64) {
        return Ok(Some(lhs));
    }
    try_fold_const_binary_op(g, lhs, rhs, mul, span)
}

fn visit_exp_bis(g: &mut Graph, exp: Link<Op>) -> (r: Result<Option<Link<Op>>, CompileError>)
    requires
        old(g).wf(),
        exp.ptr < old(g).ops.len(),
    ensures
        grows(*old(g), *final(g)),
        exp_step(*old(g), *final(g), exp.ptr as int, r),
        result_fits(*final(g), exp.ptr as int, r),
{
    let (lhs, rhs, span) = match &g.ops[exp.ptr] {
        Op::Exp(x) => (x.lhs, x.rhs, x.span),
        _ => return Ok(None),
    };
    proof {
        assert(op_children(g.ops@[exp.ptr as int])[0] == lhs);
        assert(op_children(g.ops@[exp.ptr as int])[1] == rhs);
    }
    let c = operand_const(g, &rhs)?;
    if c == Some(0u64) {
        return Ok(Some(new_felt(g, 1, span)));
    }
    if operand_const(g, &lhs)? == Some(0u64) {
        if c.is_some() {
            return Ok(Some(new_felt(g, 0, span)));
        }
        return Ok(None);
    }
    try_fold_const_binary_op(g, lhs, rhs, exp, span)
}

/// Checking that an index of an accessor over a large vector or matrix is constant: an error,
/// with a diagnostic at the index, where it is not.
pub open spec fn index_checked(
    a: Graph,
    b: Graph,
    d0: Seq<Diagnostic>,
    d1: Seq<Diagnostic>,
    i: Link<Op>,
    r: Result<Option<Link<Op>>, CompileError>,
) -> bool {
    if !def(a, i) {
        faulted(a, b, r) && d1 == d0
    } else if ic(a, i) is None {
        b == a && failed_with(r, d0, d1, DiagnosticKind::IndexNotConstant, op_span(a.ops@[i.ptr as int]))
    } else {
        unchanged(a, b, r) && d1 == d0
    }
}

/// One step on an accessor: an accessor over a large vector or matrix stays, once its indices
/// are checked to be constant; any other is resolved as [handle_accessor_visit] does, with
/// constant indices expected.
pub open spec fn accessor_step(
    a: Graph,
    b: Graph,
    d0: Seq<Diagnostic>,
    d1: Seq<Diagnostic>,
    p: int,
    r: Result<Option<Link<Op>>, CompileError>,
) -> bool {
    match a.ops@[p] {
        Op::Accessor(x) => if skip_unroll(a.ops@[x.indexable.ptr as int]) {
            match x.access_type {
                MirAccessType::Index(i) => index_checked(a, b, d0, d1, i, r),
                MirAccessType::Matrix(rw, c) => if !def(a, rw) {
                    faulted(a, b, r) && d1 == d0
                } else if ic(a, rw) is None {
                    b == a && failed_with(
                        r,
                        d0,
                        d1,
                        DiagnosticKind::IndexNotConstant,
                        op_span(a.ops@[rw.ptr as int]),
                    )
                } else {
                    index_checked(a, b, d0, d1, c, r)
                },
                MirAccessType::Default => unchanged(a, b, r) && d1 == d0,
            }
        } else if !accessor_visit_defined(a.ops@, a.ops@[p]) {
            faulted(a, b, r) && d1 == d0
        } else {
            accessor_visit_outcome(a, b, d0, d1, p, true, r)
        },
        _ => unchanged(a, b, r) && d1 == d0,
    }
}

/// Check that an index is constant, with a diagnostic where it is not.
fn ensure_const_index(g: &Graph, index: &Link<Op>, diagnostics: &mut DiagnosticsHandler) -> (r: Result<(), CompileError>)
    requires
        g.wf(),
        index.ptr < g.ops.len(),
    ensures
        !def(*g, *index) ==> r is Err && final(diagnostics).emitted@ == old(diagnostics).emitted@,
        def(*g, *index) && ic(*g, *index) is None ==> r is Err && final(diagnostics).emitted@
            == old(diagnostics).emitted@.push(
            Diagnostic { kind: DiagnosticKind::IndexNotConstant, span: op_span(g.ops@[index.ptr as int]) },
        ),
        def(*g, *index) && ic(*g, *index) is Some ==> r is Ok && final(diagnostics).emitted@ == old(
            diagnostics,
        ).emitted@,
        r is Err ==> r == Err::<(), CompileError>(CompileError::Failed),
{
    match try_inner_const(g, index) {
        None => Err(CompileError::Failed),
        Some(Some(_)) => Ok(()),
        Some(None) => {
            diagnostics.emit(DiagnosticKind::IndexNotConstant, index.span(g));
            Err(CompileError::Failed)
        },
    }
}

fn visit_accessor_bis(
    g: &mut Graph,
    accessor: Link<Op>,
    diagnostics: &mut DiagnosticsHandler,
) -> (r: Result<Option<Link<Op>>, CompileError>)
    requires
        old(g).wf(),
        accessor.ptr < old(g).ops.len(),
    ensures
        grows(*old(g), *final(g)),
        accessor_step(
            *old(g),
            *final(g),
            old(diagnostics).emitted@,
            final(diagnostics).emitted@,
            accessor.ptr as int,
            r,
        ),
        result_fits(*final(g), accessor.ptr as int, r),
{
    let (indexable, access_type) = match &g.ops[accessor.ptr] {
        Op::Accessor(a) => (a.indexable, a.access_type.clone()),
        _ => return Ok(None),
    };
    proof {
        assert(op_children(g.ops@[accessor.ptr as int])[0] == indexable);
    }
    if should_skip_accessor_unroll(g, &indexable) {
        match access_type {
            MirAccessType::Index(index) => {
                proof {
                    assert(op_children(g.ops@[accessor.ptr as int])[1] == index);
                }
                ensure_const_index(g, &index, diagnostics)?;
            },
            MirAccessType::Matrix(row, col) => {
                proof {
                    assert(op_children(g.ops@[accessor.ptr as int])[1] == row);
                    assert(op_children(g.ops@[accessor.ptr as int])[2] == col);
                }
                ensure_const_index(g, &row, diagnostics)?;
                ensure_const_index(g, &col, diagnostics)?;
            },
            MirAccessType::Default => {},
        }
        return Ok(None);
    }
    if !accessor_visit_is_defined(g, &accessor) {
        return Err(CompileError::Failed);
    }
    let r = handle_accessor_visit(g, accessor, true, diagnostics);
    proof {
        lemma_accessor_result_fits(
            *old(g),
            *g,
            old(diagnostics).emitted@,
            diagnostics.emitted@,
            accessor,
            true,
            r,
        );
    }
    r
}

/// One step of constant propagation on the op a node view names: the rewrite of a `+`, `-`,
/// `*`, `^` or accessor; nothing for vectors, matrices, constraints, bus operations and values;
/// an error for the ops that inlining and unrolling remove before this pass.
pub open spec fn node_step(
    a: Graph,
    b: Graph,
    d0: Seq<Diagnostic>,
    d1: Seq<Diagnostic>,
    n: Node,
    r: Result<Option<Link<Op>>, CompileError>,
) -> bool {
    match n {
        Node::Add(x) => d1 == d0 && add_step(a, b, x.ptr as int, r),
        Node::Sub(x) => d1 == d0 && sub_step(a, b, x.ptr as int, r),
        Node::Mul(x) => d1 == d0 && mul_step(a, b, x.ptr as int, r),
        Node::Exp(x) => d1 == d0 && exp_step(a, b, x.ptr as int, r),
        Node::Accessor(x) => accessor_step(a, b, d0, d1, x.ptr as int, r),
        Node::Vector(_) | Node::Matrix(_) | Node::Enf(_) | Node::Boundary(_) | Node::BusOp(_)
        | Node::Value(_) | Node::Nil(_) => unchanged(a, b, r) && d1 == d0,
        _ => faulted(a, b, r) && d1 == d0,
    }
}

/// `b` is `a` with the op at `p` replaced by the content of the op at `l`.
pub open spec fn replaced(a: Graph, b: Graph, p: int, l: Link<Op>) -> bool {
    &&& b.ops.len() == a.ops.len()
    &&& same_but_views(a.ops@[l.ptr as int], b.ops@[p])
    &&& forall|i: int| 0 <= i < a.ops.len() && i != p ==> b.ops@[i] == a.ops@[i]
}

/// The effect of visiting the node view `node`: nothing where it is stale; otherwise the step
/// on its op, whose result (if any) takes the op's place.
pub open spec fn visit_effect(
    a: Graph,
    b: Graph,
    d0: Seq<Diagnostic>,
    d1: Seq<Diagnostic>,
    node: Link<Node>,
    r: Result<(), CompileError>,
) -> bool {
    let n = a.nodes@[node.ptr as int];
    if node_live_root(a, n) is None && node_live_op(a, n) is None {
        b == a && d1 == d0 && r == Ok::<(), CompileError>(())
    } else {
        exists|mid: Graph, s: Result<Option<Link<Op>>, CompileError>|
            #[trigger] node_step(a, mid, d0, d1, n, s) && match s {
                Err(e) => r == Err::<(), CompileError>(e) && b == mid,
                Ok(None) => r == Ok::<(), CompileError>(()) && b == mid,
                Ok(Some(l)) => r == Ok::<(), CompileError>(()) && replaced(
                    mid,
                    b,
                    node_op_ptr(n)->Some_0 as int,
                    l,
                ),
            }
    }
}

/// What a node view asks the pass to do.
enum Target {
    Add(usize),
    Sub(usize),
    Mul(usize),
    Exp(usize),
    Accessor(usize),
    Skip,
    Unexpected,
}

fn node_target(n: &Node) -> (r: Target)
    ensures
        match *n {
            Node::Add(x) => r == Target::Add(x.ptr),
            Node::Sub(x) => r == Target::Sub(x.ptr),
            Node::Mul(x) => r == Target::Mul(x.ptr),
            Node::Exp(x) => r == Target::Exp(x.ptr),
            Node::Accessor(x) => r == Target::Accessor(x.ptr),
            Node::Vector(_) | Node::Matrix(_) | Node::Enf(_) | Node::Boundary(_) | Node::BusOp(_)
            | Node::Value(_) | Node::Nil(_) => r == Target::Skip,
            _ => r == Target::Unexpected,
        },
{
    match n {
        Node::Add(x) => Target::Add(x.ptr),
        Node::Sub(x) => Target::Sub(x.ptr),
        Node::Mul(x) => Target::Mul(x.ptr),
        Node::Exp(x) => Target::Exp(x.ptr),
        Node::Accessor(x) => Target::Accessor(x.ptr),
        Node::Vector(_) | Node::Matrix(_) | Node::Enf(_) | Node::Boundary(_) | Node::BusOp(_)
        | Node::Value(_) | Node::Nil(_) => Target::Skip,
        _ => Target::Unexpected,
    }
}

/// The graph is the same but for its ops, nodes and owners, of which it has at least as many.
pub open spec fn same_frame(a: Graph, b: Graph) -> bool {
    &&& b.wf()
    &&& b.ops.len() >= a.ops.len()
    &&& b.nodes.len() >= a.nodes.len()
    &&& b.roots == a.roots
    &&& b.buses == a.buses
    &&& b.boundary_constraints_roots == a.boundary_constraints_roots
    &&& b.integrity_constraints_roots == a.integrity_constraints_roots
    &&& b.functions == a.functions
    &&& b.evaluators == a.evaluators
    &&& b.bus_table == a.bus_table
}

/// The constant-propagation pass. It visits the boundary and integrity constraints and the bus
/// columns, children before parents.
pub struct ConstantPropagation {
    pub work_stack: Vec<Link<Node>>,
}

impl ConstantPropagation {
    pub fn new() -> (r: Self)
        ensures
            r.work_stack@.len() == 0,
    {
        ConstantPropagation { work_stack: Vec::new() }
    }

    /// Visit a node: rewrite its op to what the step on it gives (see [visit_effect]); the run
    /// visits the nodes of the constraints and bus columns, children before parents.
    pub fn visit_node(
        &mut self,
        g: &mut Graph,
        node: Link<Node>,
        diagnostics: &mut DiagnosticsHandler,
    ) -> (r: Result<(), CompileError>)
        requires
            old(g).wf(),
            node.ptr < old(g).nodes.len(),
        ensures
            same_frame(*old(g), *final(g)),
            final(self).work_stack == old(self).work_stack,
            visit_effect(
                *old(g),
                *final(g),
                old(diagnostics).emitted@,
                final(diagnostics).emitted@,
                node,
                r,
            ),
    {
        if node.is_stale(g) {
            return Ok(());
        }
        let ghost n = g.nodes@[node.ptr as int];
        let step = match node_target(&g.nodes[node.ptr]) {
            Target::Add(p) => visit_add_bis(g, Link::new(p)),
            Target::Sub(p) => visit_sub_bis(g, Link::new(p)),
            Target::Mul(p) => visit_mul_bis(g, Link::new(p)),
            Target::Exp(p) => visit_exp_bis(g, Link::new(p)),
            Target::Accessor(p) => visit_accessor_bis(g, Link::new(p), diagnostics),
            Target::Skip => Ok(None),
            Target::Unexpected => Err(CompileError::Failed),
        };
        let ghost mid = *g;
        assert(node_step(*old(g), mid, old(diagnostics).emitted@, diagnostics.emitted@, n, step));
        match step {
            Err(e) => Err(e),
            Ok(None) => Ok(()),
            Ok(Some(updated)) => {
                let p = node_op_ptr_exec(&g.nodes[node.ptr]);
                let op = Link::<Op>::new(p);
                proof {
                    assert(Some(p) == node_op_ptr(n));
                    assert(mid.op_dropped@[p as int] == old(g).op_dropped@[p as int]);
                    let l = updated;
                    assert forall|j: int|
                        0 <= j < op_children(mid.ops@[l.ptr as int]).len() implies mid.rank@[(
                        #[trigger] op_children(mid.ops@[l.ptr as int])[j]).ptr as int] < mid.rank@[p as int] by {
                    }
                }
                op.set(&updated, g);
                Ok(())
            },
        }
    }
}

/// The op slot a node view names (for a view that names one).
fn node_op_ptr_exec(n: &Node) -> (r: usize)
    requires
        node_op_ptr(*n) is Some,
    ensures
        Some(r) == node_op_ptr(*n),
{
    match n {
        Node::Enf(b) | Node::Boundary(b) | Node::Add(b) | Node::Sub(b) | Node::Mul(b)
        | Node::Exp(b) | Node::If(b) | Node::For(b) | Node::Call(b) | Node::Fold(b)
        | Node::Vector(b) | Node::Matrix(b) | Node::Accessor(b) | Node::BusOp(b)
        | Node::Parameter(b) | Node::Value(b) => b.ptr,
        _ => 0,
    }
}

/// `b` differs from `a` only in the views its ops keep and in new node and owner views.
pub open spec fn views_grown(a: Graph, b: Graph) -> bool {
    &&& b.wf()
    &&& frame(a, b)
    &&& b.ops.len() == a.ops.len()
    &&& b.roots == a.roots
    &&& b.nodes.len() >= a.nodes.len()
    &&& forall|i: int| 0 <= i < a.nodes.len() ==> #[trigger] b.nodes@[i] == a.nodes@[i]
    &&& forall|i: int| 0 <= i < a.ops.len() ==> same_but_views(a.ops@[i], #[trigger] b.ops@[i])
}

proof fn lemma_same_but_views_refl(a: Op)
    ensures
        same_but_views(a, a),
{
}

proof fn lemma_same_but_views_trans(a: Op, b: Op, c: Op)
    requires
        same_but_views(a, b),
        same_but_views(b, c),
    ensures
        same_but_views(a, c),
{
}

proof fn lemma_views_grown_trans(a: Graph, b: Graph, c: Graph)
    requires
        views_grown(a, b),
        views_grown(b, c),
    ensures
        views_grown(a, c),
{
    assert forall|i: int| 0 <= i < a.ops.len() implies same_but_views(a.ops@[i], #[trigger] c.ops@[i]) by {
        lemma_same_but_views_trans(a.ops@[i], b.ops@[i], c.ops@[i]);
    }
}

/// Every node view on the stack names a slot of the node arena.
pub open spec fn stack_valid(s: Seq<Link<Node>>, nodes: usize) -> bool {
    forall|k: int| 0 <= k < s.len() ==> (#[trigger] s[k]).ptr < nodes
}

/// The op slots under the op at `p`, each before its children, children in order: the order in
/// which a scan meets them. A dropped op, and an op that owns nothing, is met alone.
pub open spec fn scan_order(g: Graph, p: int) -> Seq<int>
    decreases g.rank@[p] as int, 1int, 0int,
{
    if !g.op_dropped@[p] && is_owner_op(g.ops@[p]) {
        seq![p] + scan_list(g, op_children(g.ops@[p]), g.rank@[p])
    } else {
        seq![p]
    }
}

/// The scan orders of the ops `cs` names that rank below `bound`, one after the other.
pub open spec fn scan_list(g: Graph, cs: Seq<Link<Op>>, bound: nat) -> Seq<int>
    decreases bound as int, 0int, cs.len() as int,
{
    if cs.len() == 0 {
        seq![]
    } else if g.rank@[cs.last().ptr as int] < bound {
        scan_list(g, cs.drop_last(), bound) + scan_order(g, cs.last().ptr as int)
    } else {
        scan_list(g, cs.drop_last(), bound)
    }
}

/// The node view `n` names the op at `p` (an op `None` keeps no view: its scan makes a new
/// `Nil` node).
pub open spec fn names_op(g: Graph, n: Link<Node>, p: int) -> bool {
    &&& 0 <= p < g.ops.len()
    &&& n.ptr < g.nodes.len()
    &&& (is_none_op(g.ops@[p]) || node_op_ptr(g.nodes@[n.ptr as int]) == Some(p as usize))
}

/// Each node view of `ns` names the op of `ps` at the same place.
pub open spec fn names_all(g: Graph, ns: Seq<Link<Node>>, ps: Seq<int>) -> bool {
    &&& ns.len() == ps.len()
    &&& forall|k: int| 0 <= k < ns.len() ==> names_op(g, #[trigger] ns[k], ps[k])
}

proof fn lemma_names_grown(a: Graph, b: Graph, ns: Seq<Link<Node>>, ps: Seq<int>)
    requires
        views_grown(a, b),
        names_all(a, ns, ps),
    ensures
        names_all(b, ns, ps),
{
    assert forall|k: int| 0 <= k < ns.len() implies names_op(b, #[trigger] ns[k], ps[k]) by {
        assert(names_op(a, ns[k], ps[k]));
        assert(b.nodes@[ns[k].ptr as int] == a.nodes@[ns[k].ptr as int]);
        crate::views::lemma_same_but_views(a.ops@[ps[k]], b.ops@[ps[k]]);
    }
}

proof fn lemma_names_concat(g: Graph, n1: Seq<Link<Node>>, p1: Seq<int>, n2: Seq<Link<Node>>, p2: Seq<int>)
    requires
        names_all(g, n1, p1),
        names_all(g, n2, p2),
    ensures
        names_all(g, n1 + n2, p1 + p2),
{
    assert forall|k: int| 0 <= k < n1.len() + n2.len() implies names_op(g, #[trigger] (n1 + n2)[k], (p1 + p2)[k]) by {
        if k < n1.len() {
            assert(names_op(g, n1[k], p1[k]));
        } else {
            assert(names_op(g, n2[k - n1.len()], p2[k - n1.len()]));
        }
    }
}

/// Growing views changes no scan order.
proof fn lemma_scan_grown(a: Graph, b: Graph, p: int)
    requires
        views_grown(a, b),
        a.wf(),
        0 <= p < a.ops.len(),
    ensures
        scan_order(a, p) == scan_order(b, p),
    decreases a.rank@[p] as int, 1int, 0int,
{
    crate::views::lemma_same_but_views(a.ops@[p], b.ops@[p]);
    if !a.op_dropped@[p] && is_owner_op(a.ops@[p]) {
        let cs = op_children(a.ops@[p]);
        assert forall|j: int| 0 <= j < cs.len() implies (#[trigger] cs[j]).ptr < a.ops.len() by {
        }
        lemma_scan_list_grown(a, b, cs, a.rank@[p]);
    }
}

/// Growing views changes no scan order of a list.
proof fn lemma_scan_list_grown(a: Graph, b: Graph, cs: Seq<Link<Op>>, bound: nat)
    requires
        views_grown(a, b),
        a.wf(),
        forall|j: int| 0 <= j < cs.len() ==> (#[trigger] cs[j]).ptr < a.ops.len(),
    ensures
        scan_list(a, cs, bound) == scan_list(b, cs, bound),
    decreases bound as int, 0int, cs.len() as int,
{
    if cs.len() > 0 {
        assert forall|j: int| 0 <= j < cs.drop_last().len() implies (#[trigger] cs.drop_last()[j]).ptr < a.ops.len() by {
            assert(cs.drop_last()[j] == cs[j]);
        }
        lemma_scan_list_grown(a, b, cs.drop_last(), bound);
        assert(cs.last() == cs[cs.len() - 1]);
        if a.rank@[cs.last().ptr as int] < bound {
            lemma_scan_grown(a, b, cs.last().ptr as int);
        }
    }
}

/// The scan order of the first `k + 1` children is that of the first `k`, then that of the
/// `k`-th.
proof fn lemma_scan_list_step(g: Graph, cs: Seq<Link<Op>>, k: int, bound: nat)
    requires
        0 <= k < cs.len(),
        g.rank@[cs[k].ptr as int] < bound,
    ensures
        scan_list(g, cs.take(k + 1), bound) == scan_list(g, cs.take(k), bound) + scan_order(g, cs[k].ptr as int),
{
    assert(cs.take(k + 1).drop_last() =~= cs.take(k));
    assert(cs.take(k + 1).last() == cs[k]);
}

/// The visits `ns` of a run over `roots` from the states `pre`: block `i` (from `bases[i]` to
/// `bases[i + 1]`) visits the ops under `roots[i]`, children before parents (the scan order,
/// last first), by node views that name them in the graph as it stood when the block began.
pub open spec fn visits_cover(roots: Seq<Link<Op>>, ns: Seq<Link<Node>>, pre: Seq<Graph>, bases: Seq<int>) -> bool {
    &&& bases.len() == roots.len() + 1
    &&& bases[0] == 0
    &&& bases[roots.len() as int] == ns.len()
    &&& forall|i: int| 0 <= i < roots.len() ==> #[trigger] block_ok(roots[i], ns, pre, bases[i], bases[i + 1])
}

/// The visits from `lo` to `hi` are those of the ops under `root`, last scanned first.
pub open spec fn block_ok(root: Link<Op>, ns: Seq<Link<Node>>, pre: Seq<Graph>, lo: int, hi: int) -> bool {
    let g = pre[lo];
    let ps = scan_order(g, root.ptr as int);
    &&& 0 <= lo < hi <= ns.len()
    &&& lo < pre.len()
    &&& hi - lo == ps.len()
    &&& forall|j: int| 0 <= j < hi - lo ==> names_op(g, #[trigger] ns[lo + j], ps[ps.len() - 1 - j])
}

/// The columns of the buses, bus after bus.
pub open spec fn bus_columns(bs: Seq<Bus>) -> Seq<Link<Op>>
    decreases bs.len(),
{
    if bs.len() == 0 {
        seq![]
    } else {
        bus_columns(bs.drop_last()) + bs.last().columns@
    }
}

/// The ops the pass starts from: the boundary constraints, the integrity constraints and the
/// bus columns.
pub open spec fn roots_to_visit(g: Graph) -> Seq<Link<Op>> {
    g.boundary_constraints_roots@ + g.integrity_constraints_roots@ + bus_columns(g.buses@)
}

proof fn lemma_bus_columns_valid(g: Graph, n: int)
    requires
        g.wf(),
        0 <= n <= g.buses.len(),
    ensures
        forall|j: int| 0 <= j < bus_columns(g.buses@.take(n)).len() ==> (#[trigger] bus_columns(g.buses@.take(n))[j]).ptr < g.ops.len(),
    decreases n,
{
    if n > 0 {
        lemma_bus_columns_valid(g, n - 1);
        let bs = g.buses@.take(n);
        assert(bs.drop_last() =~= g.buses@.take(n - 1));
        let prev = bus_columns(g.buses@.take(n - 1));
        let cols = bs.last().columns@;
        assert forall|j: int| 0 <= j < bus_columns(bs).len() implies (#[trigger] bus_columns(bs)[j]).ptr < g.ops.len() by {
            if j >= prev.len() {
                assert(bus_columns(bs)[j] == cols[j - prev.len()]);
                assert(g.buses@[n - 1].columns@[j - prev.len()] == cols[j - prev.len()]);
            } else {
                assert(bus_columns(bs)[j] == prev[j]);
            }
        }
    }
}

/// The ops to start visiting from (see [roots_to_visit]).
fn root_nodes_to_visit(g: &Graph) -> (r: Vec<Link<Op>>)
    requires
        g.wf(),
    ensures
        r@ == roots_to_visit(*g),
        forall|j: int| 0 <= j < r.len() ==> (#[trigger] r@[j]).ptr < g.ops.len(),
{
    let mut r: Vec<Link<Op>> = Vec::new();
    let mut i: usize = 0;
    while i < g.boundary_constraints_roots.len()
        invariant
            i <= g.boundary_constraints_roots.len(),
            r@ == g.boundary_constraints_roots@.take(i as int),
        decreases g.boundary_constraints_roots.len() - i,
    {
        r.push(g.boundary_constraints_roots[i]);
        i = i + 1;
        assert(r@ =~= g.boundary_constraints_roots@.take(i as int));
    }
    assert(g.boundary_constraints_roots@.take(i as int) =~= g.boundary_constraints_roots@);
    let mut i: usize = 0;
    while i < g.integrity_constraints_roots.len()
        invariant
            i <= g.integrity_constraints_roots.len(),
            r@ == g.boundary_constraints_roots@ + g.integrity_constraints_roots@.take(i as int),
        decreases g.integrity_constraints_roots.len() - i,
    {
        r.push(g.integrity_constraints_roots[i]);
        i = i + 1;
        assert(r@ =~= g.boundary_constraints_roots@ + g.integrity_constraints_roots@.take(i as int));
    }
    assert(g.integrity_constraints_roots@.take(i as int) =~= g.integrity_constraints_roots@);
    let ghost head = g.boundary_constraints_roots@ + g.integrity_constraints_roots@;
    let mut b: usize = 0;
    while b < g.buses.len()
        invariant
            b <= g.buses.len(),
            r@ == head + bus_columns(g.buses@.take(b as int)),
        decreases g.buses.len() - b,
    {
        let cols = &g.buses[b].columns;
        let mut j: usize = 0;
        while j < cols.len()
            invariant
                b < g.buses.len(),
                *cols == g.buses@[b as int].columns,
                j <= cols.len(),
                r@ == head + bus_columns(g.buses@.take(b as int)) + cols@.take(j as int),
            decreases cols.len() - j,
        {
            r.push(cols[j]);
            j = j + 1;
            assert(r@ =~= head + bus_columns(g.buses@.take(b as int)) + cols@.take(j as int));
        }
        assert(g.buses@.take(b as int + 1).drop_last() =~= g.buses@.take(b as int));
        assert(cols@.take(j as int) =~= cols@);
        b = b + 1;
        assert(r@ =~= head + bus_columns(g.buses@.take(b as int)));
    }
    assert(g.buses@.take(b as int) =~= g.buses@);
    proof {
        lemma_bus_columns_valid(*g, g.buses.len() as int);
        assert forall|j: int| 0 <= j < r.len() implies (#[trigger] r@[j]).ptr < g.ops.len() by {
            let nb = g.boundary_constraints_roots.len() as int;
            let ni = g.integrity_constraints_roots.len() as int;
            if j < nb {
                assert(r@[j] == g.boundary_constraints_roots@[j]);
            } else if j < nb + ni {
                assert(r@[j] == g.integrity_constraints_roots@[j - nb]);
            } else {
                assert(r@[j] == bus_columns(g.buses@.take(g.buses.len() as int))[j - nb - ni]);
            }
        }
    }
    r
}

impl ConstantPropagation {
    /// Push the node view of an op and, where it owns ops, of its children recursively, depth
    /// first, onto the work stack: the pushed views name the ops of its scan order.
    fn scan_node(&mut self, g: &mut Graph, op: Link<Op>)
        requires
            old(g).wf(),
            op.ptr < old(g).ops.len(),
            stack_valid(old(self).work_stack@, old(g).nodes.len()),
        ensures
            views_grown(*old(g), *final(g)),
            stack_valid(final(self).work_stack@, final(g).nodes.len()),
            final(self).work_stack@.len() > old(self).work_stack@.len(),
            final(self).work_stack@.take(old(self).work_stack@.len() as int) == old(self).work_stack@,
            names_all(
                *final(g),
                final(self).work_stack@.skip(old(self).work_stack@.len() as int),
                scan_order(*final(g), op.ptr as int),
            ),
        decreases old(g).rank@[op.ptr as int],
    {
        let ghost s_old = self.work_stack@;
        let ghost p = op.ptr as int;
        let node = op.as_node(g);
        self.work_stack.push(node);
        proof {
            assert forall|i: int| 0 <= i < old(g).ops.len() implies same_but_views(old(g).ops@[i], #[trigger] g.ops@[i]) by {
                lemma_same_but_views_refl(old(g).ops@[i]);
            }
            assert(self.work_stack@.take(old(self).work_stack@.len() as int) =~= old(self).work_stack@);
            crate::views::lemma_same_but_views(old(g).ops@[p], g.ops@[p]);
            assert(names_op(*g, node, p));
            assert(self.work_stack@.skip(s_old.len() as int) =~= seq![node]);
            assert(names_all(*g, seq![node], seq![p]));
        }
        let ghost stack0 = self.work_stack@;
        if !g.op_dropped[op.ptr] {
            let ghost g1 = *g;
            if let Some(_owner) = op.as_owner(g) {
                proof {
                    assert forall|i: int| 0 <= i < g1.ops.len() implies same_but_views(g1.ops@[i], #[trigger] g.ops@[i]) by {
                        lemma_same_but_views_refl(g1.ops@[i]);
                    }
                    lemma_views_grown_trans(*old(g), g1, *g);
                    crate::views::lemma_same_but_views(old(g).ops@[op.ptr as int], g.ops@[op.ptr as int]);
                    lemma_names_grown(g1, *g, seq![node], seq![p]);
                }
                let children = g.ops[op.ptr].children();
                let ghost bound = old(g).rank@[p];
                let mut k: usize = 0;
                proof {
                    assert(self.work_stack@.skip(stack0.len() as int) =~= Seq::<Link<Node>>::empty());
                    assert(children@.take(0) =~= Seq::<Link<Op>>::empty());
                    assert(scan_list(*g, children@.take(0), bound) =~= Seq::<int>::empty());
                }
                while k < children.len()
                    invariant
                        views_grown(*old(g), *g),
                        op.ptr < g.ops.len(),
                        p == op.ptr as int,
                        bound == old(g).rank@[p],
                        children@ == op_children(old(g).ops@[op.ptr as int]),
                        forall|j: int| 0 <= j < children.len() ==> (#[trigger] children@[j]).ptr < g.ops.len()
                            && g.rank@[children@[j].ptr as int] < old(g).rank@[op.ptr as int],
                        stack_valid(self.work_stack@, g.nodes.len()),
                        self.work_stack@.len() >= stack0.len(),
                        self.work_stack@.take(stack0.len() as int) == stack0,
                        stack0 == s_old.push(node),
                        names_op(*g, node, p),
                        k <= children.len(),
                        names_all(*g, self.work_stack@.skip(stack0.len() as int), scan_list(*g, children@.take(k as int), bound)),
                    decreases children.len() - k,
                {
                    let ghost g2 = *g;
                    let ghost s2 = self.work_stack@;
                    self.scan_node(g, children[k]);
                    proof {
                        lemma_views_grown_trans(*old(g), g2, *g);
                        assert(self.work_stack@.take(stack0.len() as int) =~= s2.take(s2.len() as int).take(stack0.len() as int));
                        let prev = s2.skip(stack0.len() as int);
                        let fresh = self.work_stack@.skip(s2.len() as int);
                        lemma_names_grown(g2, *g, prev, scan_list(g2, children@.take(k as int), bound));
                        assert forall|j: int| 0 <= j < children@.take(k as int).len() implies (#[trigger] children@.take(k as int)[j]).ptr < g2.ops.len() by {
                        }
                        lemma_scan_list_grown(g2, *g, children@.take(k as int), bound);
                        lemma_names_concat(*g, prev, scan_list(*g, children@.take(k as int), bound), fresh, scan_order(*g, children@[k as int].ptr as int));
                        lemma_scan_list_step(*g, children@, k as int, bound);
                        assert(self.work_stack@.skip(stack0.len() as int) =~= prev + fresh);
                        lemma_names_grown(g2, *g, seq![node], seq![p]);
                    }
                    k = k + 1;
                }
                proof {
                    assert(children@.take(children.len() as int) =~= children@);
                    crate::views::lemma_same_but_views(old(g).ops@[p], g.ops@[p]);
                    assert(!g.op_dropped@[p]);
                    assert(scan_order(*g, p) == seq![p] + scan_list(*g, op_children(g.ops@[p]), g.rank@[p]));
                    lemma_names_concat(*g, seq![node], seq![p], self.work_stack@.skip(stack0.len() as int), scan_list(*g, children@, bound));
                    assert(self.work_stack@.skip(s_old.len() as int) =~= seq![node] + self.work_stack@.skip(stack0.len() as int));
                }
            } else {
                proof {
                    assert forall|i: int| 0 <= i < g1.ops.len() implies same_but_views(g1.ops@[i], #[trigger] g.ops@[i]) by {
                        lemma_same_but_views_refl(g1.ops@[i]);
                    }
                    lemma_views_grown_trans(*old(g), g1, *g);
                    lemma_names_grown(g1, *g, seq![node], seq![p]);
                    crate::views::lemma_same_but_views(old(g).ops@[p], g.ops@[p]);
                    assert(scan_order(*g, p) == seq![p]);
                }
            }
        } else {
            proof {
                assert(scan_order(*g, p) == seq![p]);
            }
        }
    }

    /// Run the pass on the graph: scan each root, then visit the work stack, children before
    /// parents. The run is a trace of visits (see [run_covering]): for each root, in order, a
    /// visit of each op under it (in the graph as it stood when the root was scanned), children
    /// before parents; it stops at the first failing visit.
    pub fn run(&mut self, g: &mut Graph, diagnostics: &mut DiagnosticsHandler) -> (r: Result<(), CompileError>)
        requires
            old(g).wf(),
            old(self).work_stack@.len() == 0,
        ensures
            same_frame(*old(g), *final(g)),
            run_covering(*old(g), *final(g), old(diagnostics).emitted@, final(diagnostics).emitted@, r),
            r is Ok ==> final(diagnostics).emitted@ == old(diagnostics).emitted@,
            r is Err ==> at_most_index_diagnostic(old(diagnostics).emitted@, final(diagnostics).emitted@),
    {
        let ghost g0 = *g;
        let ghost d0 = diagnostics.emitted@;
        let ghost mut ns: Seq<Link<Node>> = Seq::empty();
        let ghost mut pre: Seq<Graph> = seq![*g];
        let ghost mut post: Seq<Graph> = Seq::empty();
        let ghost mut ds: Seq<Seq<Diagnostic>> = seq![d0];
        let ghost mut rs: Seq<Result<(), CompileError>> = Seq::empty();
        let ghost mut bases: Seq<int> = seq![0];
        let roots = root_nodes_to_visit(g);
        proof {
            lemma_run_start(g0, d0, roots@);
        }
        let mut i: usize = 0;
        while i < roots.len()
            invariant
                g0 == *old(g),
                d0 == old(diagnostics).emitted@,
                same_frame(g0, *g),
                self.work_stack@.len() == 0,
                forall|j: int| 0 <= j < roots.len() ==> (#[trigger] roots@[j]).ptr < g.ops.len(),
                roots@ == roots_to_visit(g0),
                i <= roots.len(),
                run_so_far(g0, *g, d0, diagnostics.emitted@, ns, pre, post, ds, rs, bases, roots@, i as int),
            decreases roots.len() - i,
        {
            let ghost before_scan = *g;
            self.scan_node(g, roots[i]);
            let ghost gi = *g;
            let ghost st = self.work_stack@;
            let ghost base = ns.len() as int;
            proof {
                assert(st.skip(0) =~= st);
                lemma_block_start(g0, before_scan, *g, d0, diagnostics.emitted@, ns, pre, post, ds, rs, bases, roots@, i as int, st);
                pre = pre.update(base, *g);
                lemma_views_same_frame(g0, before_scan, *g);
            }
            while self.work_stack.len() > 0
                invariant
                    g0 == *old(g),
                    d0 == old(diagnostics).emitted@,
                    same_frame(g0, *g),
                    stack_valid(self.work_stack@, g.nodes.len()),
                    forall|j: int| 0 <= j < roots.len() ==> (#[trigger] roots@[j]).ptr < g.ops.len(),
                    roots@ == roots_to_visit(g0),
                    i < roots.len(),
                    block_so_far(g0, *g, d0, diagnostics.emitted@, ns, pre, post, ds, rs, bases, roots@, i as int, base, gi, st, self.work_stack@),
                decreases self.work_stack.len(),
            {
                let ghost stack = self.work_stack@;
                let node = self.work_stack.pop().unwrap();
                let ghost g1 = *g;
                let ghost d1 = diagnostics.emitted@;
                proof {
                    assert(node == stack.last());
                    assert(self.work_stack@ == stack.drop_last());
                    assert(node.ptr < g.nodes.len());
                }
                let step = self.visit_node(g, node, diagnostics);
                if step.is_err() {
                    proof {
                        lemma_block_fail(g0, g1, *g, d0, d1, diagnostics.emitted@, ns, node, step, pre, post, ds, rs, bases, roots@, i as int, base, gi, st, stack);
                    }
                    return step;
                }
                proof {
                    lemma_block_visit(g0, g1, *g, d0, d1, diagnostics.emitted@, ns, node, step, pre, post, ds, rs, bases, roots@, i as int, base, gi, st, stack);
                    ns = ns.push(node);
                    pre = pre.push(*g);
                    post = post.push(*g);
                    ds = ds.push(diagnostics.emitted@);
                    rs = rs.push(step);
                }
            }
            proof {
                assert(self.work_stack@ =~= Seq::<Link<Node>>::empty());
                lemma_block_end(g0, *g, d0, diagnostics.emitted@, ns, pre, post, ds, rs, bases, roots@, i as int, base, gi, st);
                bases = bases.push(ns.len() as int);
            }
            i = i + 1;
        }
        proof {
            lemma_run_end(g0, *g, d0, diagnostics.emitted@, ns, pre, post, ds, rs, bases, roots@);
        }
        Ok(())
    }
}

/// The run so far: the steps of a trace from `a` to `b`, every visit a success, in blocks, one
/// for each of the first `i` roots, that cover them (see [block_ok]).
#[verifier::opaque]
pub open spec fn run_so_far(
    a: Graph,
    b: Graph,
    d0: Seq<Diagnostic>,
    d1: Seq<Diagnostic>,
    ns: Seq<Link<Node>>,
    pre: Seq<Graph>,
    post: Seq<Graph>,
    ds: Seq<Seq<Diagnostic>>,
    rs: Seq<Result<(), CompileError>>,
    bases: Seq<int>,
    roots: Seq<Link<Op>>,
    i: int,
) -> bool {
    &&& trace_steps(a, b, d0, d1, ns, Ok::<(), CompileError>(()), pre, post, ds, rs)
    &&& 0 <= i <= roots.len()
    &&& bases.len() == i + 1
    &&& bases[0] == 0
    &&& bases[i] == ns.len()
    &&& forall|j: int, k: int| 0 <= j <= k <= i ==> bases[j] <= bases[k]
    &&& forall|j: int| 0 <= j < i ==> #[trigger] block_ok(roots[j], ns, pre, bases[j], bases[j + 1])
}

/// The run within the block of root `i`: the run so far up to the block, which began at visit
/// `base` in `gi`, where the scan pushed `st`; the visits since took the views on top of `st`,
/// last first, and `stack` is what is left.
#[verifier::opaque]
pub open spec fn block_so_far(
    a: Graph,
    b: Graph,
    d0: Seq<Diagnostic>,
    d1: Seq<Diagnostic>,
    ns: Seq<Link<Node>>,
    pre: Seq<Graph>,
    post: Seq<Graph>,
    ds: Seq<Seq<Diagnostic>>,
    rs: Seq<Result<(), CompileError>>,
    bases: Seq<int>,
    roots: Seq<Link<Op>>,
    i: int,
    base: int,
    gi: Graph,
    st: Seq<Link<Node>>,
    stack: Seq<Link<Node>>,
) -> bool {
    &&& trace_steps(a, b, d0, d1, ns, Ok::<(), CompileError>(()), pre, post, ds, rs)
    &&& 0 <= i < roots.len()
    &&& bases.len() == i + 1
    &&& bases[0] == 0
    &&& bases[i] == base
    &&& forall|j: int, k: int| 0 <= j <= k <= i ==> bases[j] <= bases[k]
    &&& forall|j: int| 0 <= j < i ==> #[trigger] block_ok(roots[j], ns, pre, bases[j], bases[j + 1])
    &&& 0 <= base <= ns.len()
    &&& base < pre.len()
    &&& pre[base] == gi
    &&& names_all(gi, st, scan_order(gi, roots[i].ptr as int))
    &&& ns.len() - base <= st.len()
    &&& stack == st.take(st.len() - (ns.len() - base))
    &&& forall|j: int| 0 <= j < ns.len() - base ==> #[trigger] ns[base + j] == st[st.len() - 1 - j]
}

proof fn lemma_run_start(g0: Graph, d0: Seq<Diagnostic>, roots: Seq<Link<Op>>)
    requires
        g0.wf(),
    ensures
        run_so_far(g0, g0, d0, d0, Seq::empty(), seq![g0], Seq::empty(), seq![d0], Seq::empty(), seq![0], roots, 0),
{
    reveal(run_so_far);
    lemma_views_grown_refl(g0);
    assert(trace_steps(g0, g0, d0, d0, Seq::empty(), Ok::<(), CompileError>(()), seq![g0], Seq::empty(), seq![d0], Seq::empty()));
}

proof fn lemma_block_start(
    a: Graph,
    b: Graph,
    b2: Graph,
    d0: Seq<Diagnostic>,
    d1: Seq<Diagnostic>,
    ns: Seq<Link<Node>>,
    pre: Seq<Graph>,
    post: Seq<Graph>,
    ds: Seq<Seq<Diagnostic>>,
    rs: Seq<Result<(), CompileError>>,
    bases: Seq<int>,
    roots: Seq<Link<Op>>,
    i: int,
    st: Seq<Link<Node>>,
)
    requires
        run_so_far(a, b, d0, d1, ns, pre, post, ds, rs, bases, roots, i),
        i < roots.len(),
        views_grown(b, b2),
        names_all(b2, st, scan_order(b2, roots[i].ptr as int)),
    ensures
        block_so_far(a, b2, d0, d1, ns, pre.update(ns.len() as int, b2), post, ds, rs, bases, roots, i, ns.len() as int, b2, st, st),
{
    reveal(run_so_far);
    reveal(block_so_far);
    let n = ns.len() as int;
    lemma_steps_grown(a, b, b2, d0, d1, ns, pre, post, ds, rs);
    let pre1 = pre.update(n, b2);
    assert forall|j: int| 0 <= j < i implies #[trigger] block_ok(roots[j], ns, pre1, bases[j], bases[j + 1]) by {
        assert(block_ok(roots[j], ns, pre, bases[j], bases[j + 1]));
        assert(bases[j + 1] <= bases[i]);
        assert(pre1[bases[j]] == pre[bases[j]]);
    }
    assert(st.take(st.len() - 0) =~= st);
}

proof fn lemma_block_visit(
    a: Graph,
    b: Graph,
    c: Graph,
    d0: Seq<Diagnostic>,
    d1: Seq<Diagnostic>,
    d2: Seq<Diagnostic>,
    ns: Seq<Link<Node>>,
    node: Link<Node>,
    r: Result<(), CompileError>,
    pre: Seq<Graph>,
    post: Seq<Graph>,
    ds: Seq<Seq<Diagnostic>>,
    rs: Seq<Result<(), CompileError>>,
    bases: Seq<int>,
    roots: Seq<Link<Op>>,
    i: int,
    base: int,
    gi: Graph,
    st: Seq<Link<Node>>,
    stack: Seq<Link<Node>>,
)
    requires
        block_so_far(a, b, d0, d1, ns, pre, post, ds, rs, bases, roots, i, base, gi, st, stack),
        stack.len() > 0,
        node == stack.last(),
        b.wf(),
        node.ptr < b.nodes.len(),
        visit_effect(b, c, d1, d2, node, r),
        same_frame(b, c),
        r is Ok,
    ensures
        block_so_far(a, c, d0, d2, ns.push(node), pre.push(c), post.push(c), ds.push(d2), rs.push(r), bases, roots, i, base, gi, st, stack.drop_last()),
{
    reveal(block_so_far);
    lemma_steps_visit(a, b, c, d0, d1, d2, ns, node, r, pre, post, ds, rs);
    let ns1 = ns.push(node);
    let pre1 = pre.push(c);
    let t = ns.len() - base;
    assert(node == st[st.len() - 1 - t]);
    assert forall|j: int| 0 <= j < i implies #[trigger] block_ok(roots[j], ns1, pre1, bases[j], bases[j + 1]) by {
        assert(block_ok(roots[j], ns, pre, bases[j], bases[j + 1]));
        let lo = bases[j];
        let hi = bases[j + 1];
        assert(pre1[lo] == pre[lo]);
        assert forall|u: int| 0 <= u < hi - lo implies #[trigger] ns1[lo + u] == ns[lo + u] by {
        }
    }
    assert(stack.drop_last() =~= st.take(st.len() - (ns1.len() - base)));
    assert forall|j: int| 0 <= j < ns1.len() - base implies #[trigger] ns1[base + j] == st[st.len() - 1 - j] by {
        if j < t {
            assert(ns1[base + j] == ns[base + j]);
        }
    }
}

proof fn lemma_block_fail(
    a: Graph,
    b: Graph,
    c: Graph,
    d0: Seq<Diagnostic>,
    d1: Seq<Diagnostic>,
    d2: Seq<Diagnostic>,
    ns: Seq<Link<Node>>,
    node: Link<Node>,
    r: Result<(), CompileError>,
    pre: Seq<Graph>,
    post: Seq<Graph>,
    ds: Seq<Seq<Diagnostic>>,
    rs: Seq<Result<(), CompileError>>,
    bases: Seq<int>,
    roots: Seq<Link<Op>>,
    i: int,
    base: int,
    gi: Graph,
    st: Seq<Link<Node>>,
    stack: Seq<Link<Node>>,
)
    requires
        block_so_far(a, b, d0, d1, ns, pre, post, ds, rs, bases, roots, i, base, gi, st, stack),
        b.wf(),
        node.ptr < b.nodes.len(),
        visit_effect(b, c, d1, d2, node, r),
        same_frame(b, c),
        r is Err,
    ensures
        run_covering(a, c, d0, d2, r),
        at_most_index_diagnostic(d0, d2),
{
    reveal(block_so_far);
    lemma_steps_visit(a, b, c, d0, d1, d2, ns, node, r, pre, post, ds, rs);
    lemma_steps_trace(a, b, d0, d1, ns, Ok::<(), CompileError>(()), pre, post, ds, rs);
    lemma_trace_ok_quiet(a, b, d0, d1, ns);
    lemma_visit_diagnostics(b, c, d1, d2, node, r);
    lemma_covering_err(a, c, d0, d2, ns.push(node), r, pre.push(c), post.push(c), ds.push(d2), rs.push(r));
}

/// A trace that failed is a covering run.
proof fn lemma_covering_err(
    a: Graph,
    b: Graph,
    d0: Seq<Diagnostic>,
    d1: Seq<Diagnostic>,
    ns: Seq<Link<Node>>,
    r: Result<(), CompileError>,
    pre: Seq<Graph>,
    post: Seq<Graph>,
    ds: Seq<Seq<Diagnostic>>,
    rs: Seq<Result<(), CompileError>>,
)
    requires
        trace_steps(a, b, d0, d1, ns, r, pre, post, ds, rs),
        r is Err,
    ensures
        run_covering(a, b, d0, d1, r),
{
    reveal(run_covering);
    assert(trace_steps(a, b, d0, d1, ns, r, pre, post, ds, rs));
}

proof fn lemma_block_end(
    a: Graph,
    b: Graph,
    d0: Seq<Diagnostic>,
    d1: Seq<Diagnostic>,
    ns: Seq<Link<Node>>,
    pre: Seq<Graph>,
    post: Seq<Graph>,
    ds: Seq<Seq<Diagnostic>>,
    rs: Seq<Result<(), CompileError>>,
    bases: Seq<int>,
    roots: Seq<Link<Op>>,
    i: int,
    base: int,
    gi: Graph,
    st: Seq<Link<Node>>,
)
    requires
        block_so_far(a, b, d0, d1, ns, pre, post, ds, rs, bases, roots, i, base, gi, st, Seq::empty()),
    ensures
        run_so_far(a, b, d0, d1, ns, pre, post, ds, rs, bases.push(ns.len() as int), roots, i + 1),
{
    reveal(block_so_far);
    reveal(run_so_far);
    let hi = ns.len() as int;
    assert(st.take(st.len() - (ns.len() - base)).len() == 0);
    assert(hi - base == st.len());
    let ps = scan_order(gi, roots[i].ptr as int);
    assert forall|j: int| 0 <= j < hi - base implies names_op(gi, #[trigger] ns[base + j], ps[ps.len() - 1 - j]) by {
        assert(ns[base + j] == st[st.len() - 1 - j]);
        assert(names_op(gi, st[st.len() - 1 - j], ps[st.len() - 1 - j]));
    }
    assert(block_ok(roots[i], ns, pre, base, hi));
    let b2 = bases.push(hi);
    assert forall|j: int| 0 <= j < i + 1 implies #[trigger] block_ok(roots[j], ns, pre, b2[j], b2[j + 1]) by {
        if j < i {
            assert(b2[j] == bases[j] && b2[j + 1] == bases[j + 1]);
            assert(block_ok(roots[j], ns, pre, bases[j], bases[j + 1]));
        }
    }
    assert forall|j: int, k: int| 0 <= j <= k <= i + 1 implies b2[j] <= b2[k] by {
        if k <= i {
            assert(bases[j] <= bases[k]);
        } else if j <= i {
            assert(bases[j] <= bases[i]);
        }
    }
}

proof fn lemma_run_end(
    a: Graph,
    b: Graph,
    d0: Seq<Diagnostic>,
    d1: Seq<Diagnostic>,
    ns: Seq<Link<Node>>,
    pre: Seq<Graph>,
    post: Seq<Graph>,
    ds: Seq<Seq<Diagnostic>>,
    rs: Seq<Result<(), CompileError>>,
    bases: Seq<int>,
    roots: Seq<Link<Op>>,
)
    requires
        run_so_far(a, b, d0, d1, ns, pre, post, ds, rs, bases, roots, roots.len() as int),
        roots == roots_to_visit(a),
    ensures
        run_covering(a, b, d0, d1, Ok::<(), CompileError>(())),
        d1 == d0,
{
    reveal(run_so_far);
    lemma_steps_trace(a, b, d0, d1, ns, Ok::<(), CompileError>(()), pre, post, ds, rs);
    lemma_trace_ok_quiet(a, b, d0, d1, ns);
    reveal(run_covering);
    assert(visits_cover(roots_to_visit(a), ns, pre, bases));
    assert(trace_steps(a, b, d0, d1, ns, Ok::<(), CompileError>(()), pre, post, ds, rs));
}

/// The run went from `a` to `b` by the visits of a trace (see [trace_steps]) that, where it
/// succeeded, covers each root to visit (see [visits_cover]).
#[verifier::opaque]
pub open spec fn run_covering(a: Graph, b: Graph, d0: Seq<Diagnostic>, d1: Seq<Diagnostic>, r: Result<(), CompileError>) -> bool {
    exists|ns: Seq<Link<Node>>, pre: Seq<Graph>, post: Seq<Graph>, ds: Seq<Seq<Diagnostic>>, rs: Seq<Result<(), CompileError>>|
        #[trigger] trace_steps(a, b, d0, d1, ns, r, pre, post, ds, rs) && (r is Ok ==> exists|bases: Seq<int>|
            #[trigger] visits_cover(roots_to_visit(a), ns, pre, bases))
}

/// The steps of a run: from `a`, views grew to `pre[0]`; the `k`-th visit took `pre[k]` to
/// `post[k]` (by [visit_effect] on `ns[k]`, diagnostics from `ds[k]` to `ds[k + 1]`, outcome
/// `rs[k]`), and views grew from there to `pre[k + 1]`, or nothing more happened where it
/// failed; only the last visit may fail; `pre` ends on `b`.
pub open spec fn trace_steps(
    a: Graph,
    b: Graph,
    d0: Seq<Diagnostic>,
    d1: Seq<Diagnostic>,
    ns: Seq<Link<Node>>,
    r: Result<(), CompileError>,
    pre: Seq<Graph>,
    post: Seq<Graph>,
    ds: Seq<Seq<Diagnostic>>,
    rs: Seq<Result<(), CompileError>>,
) -> bool {
    let n = ns.len();
    &&& pre.len() == n + 1
    &&& post.len() == n
    &&& ds.len() == n + 1
    &&& rs.len() == n
    &&& views_grown(a, pre[0])
    &&& pre[n as int] == b
    &&& ds[0] == d0
    &&& ds[n as int] == d1
    &&& r == (if n == 0 { Ok::<(), CompileError>(()) } else { rs[n - 1] })
    &&& forall|k: int| 0 <= k < n - 1 ==> #[trigger] rs[k] == Ok::<(), CompileError>(())
    &&& forall|k: int|
        0 <= k < n ==> {
            &&& (#[trigger] pre[k]).wf()
            &&& ns[k].ptr < pre[k].nodes.len()
            &&& visit_effect(pre[k], post[k], ds[k], ds[k + 1], ns[k], rs[k])
            &&& rs[k] is Ok ==> views_grown(post[k], pre[k + 1])
            &&& rs[k] is Err ==> pre[k + 1] == post[k]
        }
}

/// The run went from `a` to `b` by growing node views and visiting, in order, the nodes of `ns`,
/// each by [visit_effect]: every visit but the last succeeded, and `r` is the outcome of the last
/// (`Ok` where nothing was visited); after a failing visit nothing more happens.
#[verifier::opaque]
pub open spec fn run_trace(
    a: Graph,
    b: Graph,
    d0: Seq<Diagnostic>,
    d1: Seq<Diagnostic>,
    ns: Seq<Link<Node>>,
    r: Result<(), CompileError>,
) -> bool {
    exists|pre: Seq<Graph>, post: Seq<Graph>, ds: Seq<Seq<Diagnostic>>, rs: Seq<Result<(), CompileError>>|
        #[trigger] trace_steps(a, b, d0, d1, ns, r, pre, post, ds, rs)
}

/// A visit that succeeds emits no diagnostic.
proof fn lemma_visit_ok_quiet(
    a: Graph,
    b: Graph,
    d0: Seq<Diagnostic>,
    d1: Seq<Diagnostic>,
    node: Link<Node>,
)
    requires
        visit_effect(a, b, d0, d1, node, Ok::<(), CompileError>(())),
    ensures
        d1 == d0,
{
    let n = a.nodes@[node.ptr as int];
    if !(node_live_root(a, n) is None && node_live_op(a, n) is None) {
        let (mid, s) = choose|mid: Graph, s: Result<Option<Link<Op>>, CompileError>|
            #[trigger] node_step(a, mid, d0, d1, n, s) && match s {
                Err(e) => Ok::<(), CompileError>(()) == Err::<(), CompileError>(e) && b == mid,
                Ok(None) => b == mid,
                Ok(Some(l)) => replaced(mid, b, node_op_ptr(n)->Some_0 as int, l),
            };
        assert(s is Ok);
    }
}

/// The diagnostics grew by at most one diagnostic of a non-constant or out-of-bounds index.
pub open spec fn at_most_index_diagnostic(d0: Seq<Diagnostic>, d1: Seq<Diagnostic>) -> bool {
    ||| d1 == d0
    ||| exists|kind: DiagnosticKind, span: SourceSpan|
        (kind is IndexNotConstant || kind is IndexOutOfBounds || kind is RowOutOfBounds || kind is ColOutOfBounds)
            && #[trigger] d0.push(Diagnostic { kind, span }) == d1
}

/// A visit emits at most one diagnostic, of a non-constant or out-of-bounds index.
proof fn lemma_visit_diagnostics(
    a: Graph,
    b: Graph,
    d0: Seq<Diagnostic>,
    d1: Seq<Diagnostic>,
    node: Link<Node>,
    r: Result<(), CompileError>,
)
    requires
        visit_effect(a, b, d0, d1, node, r),
    ensures
        at_most_index_diagnostic(d0, d1),
{
    let n = a.nodes@[node.ptr as int];
    if !(node_live_root(a, n) is None && node_live_op(a, n) is None) {
        let (mid, s) = choose|mid: Graph, s: Result<Option<Link<Op>>, CompileError>|
            #[trigger] node_step(a, mid, d0, d1, n, s) && match s {
                Err(e) => r == Err::<(), CompileError>(e) && b == mid,
                Ok(None) => r == Ok::<(), CompileError>(()) && b == mid,
                Ok(Some(l)) => r == Ok::<(), CompileError>(()) && replaced(mid, b, node_op_ptr(n)->Some_0 as int, l),
            };
        if d1 != d0 {
            let last = d1.last();
            assert(d0.push(Diagnostic { kind: last.kind, span: last.span }) == d1);
        }
    }
}

/// A run that succeeds emits no diagnostic.
proof fn lemma_trace_ok_quiet(a: Graph, b: Graph, d0: Seq<Diagnostic>, d1: Seq<Diagnostic>, ns: Seq<Link<Node>>)
    requires
        run_trace(a, b, d0, d1, ns, Ok::<(), CompileError>(())),
    ensures
        d1 == d0,
{
    reveal(run_trace);
    let (pre, post, ds, rs) = choose|pre: Seq<Graph>, post: Seq<Graph>, ds: Seq<Seq<Diagnostic>>, rs: Seq<Result<(), CompileError>>|
        #[trigger] trace_steps(a, b, d0, d1, ns, Ok::<(), CompileError>(()), pre, post, ds, rs);
    lemma_quiet_prefix(a, b, d0, d1, ns, pre, post, ds, rs, ns.len() as int);
}

/// Every visit of a successful run up to the `k`-th left the diagnostics as they were.
proof fn lemma_quiet_prefix(
    a: Graph,
    b: Graph,
    d0: Seq<Diagnostic>,
    d1: Seq<Diagnostic>,
    ns: Seq<Link<Node>>,
    pre: Seq<Graph>,
    post: Seq<Graph>,
    ds: Seq<Seq<Diagnostic>>,
    rs: Seq<Result<(), CompileError>>,
    k: int,
)
    requires
        trace_steps(a, b, d0, d1, ns, Ok::<(), CompileError>(()), pre, post, ds, rs),
        0 <= k <= ns.len(),
    ensures
        ds[k] == d0,
    decreases k,
{
    if k > 0 {
        lemma_quiet_prefix(a, b, d0, d1, ns, pre, post, ds, rs, k - 1);
        let j = k - 1;
        assert(rs[j] == Ok::<(), CompileError>(()));
        assert(visit_effect(pre[j], post[j], ds[j], ds[j + 1], ns[j], rs[j]));
        lemma_visit_ok_quiet(pre[j], post[j], ds[j], ds[j + 1], ns[j]);
    }
}

/// Growing views after the steps of a trace extends them.
proof fn lemma_steps_grown(
    a: Graph,
    b: Graph,
    b2: Graph,
    d0: Seq<Diagnostic>,
    d1: Seq<Diagnostic>,
    ns: Seq<Link<Node>>,
    pre: Seq<Graph>,
    post: Seq<Graph>,
    ds: Seq<Seq<Diagnostic>>,
    rs: Seq<Result<(), CompileError>>,
)
    requires
        trace_steps(a, b, d0, d1, ns, Ok::<(), CompileError>(()), pre, post, ds, rs),
        views_grown(b, b2),
    ensures
        trace_steps(a, b2, d0, d1, ns, Ok::<(), CompileError>(()), pre.update(ns.len() as int, b2), post, ds, rs),
{
    let n = ns.len() as int;
    let pre2 = pre.update(n, b2);
    if n == 0 {
        lemma_views_grown_trans(a, b, b2);
    } else {
        assert(rs[n - 1] is Ok);
        assert(pre[n - 1].wf());
        lemma_views_grown_trans(post[n - 1], b, b2);
    }
    assert forall|k: int| 0 <= k < n implies {
        &&& (#[trigger] pre2[k]).wf()
        &&& ns[k].ptr < pre2[k].nodes.len()
        &&& visit_effect(pre2[k], post[k], ds[k], ds[k + 1], ns[k], rs[k])
        &&& rs[k] is Ok ==> views_grown(post[k], pre2[k + 1])
        &&& rs[k] is Err ==> pre2[k + 1] == post[k]
    } by {
        assert(pre[k].wf());
        if k < n - 1 {
            assert(rs[k] == Ok::<(), CompileError>(()));
        }
    }
    assert(trace_steps(a, b2, d0, d1, ns, Ok::<(), CompileError>(()), pre2, post, ds, rs));
}

/// Steps make a trace.
proof fn lemma_steps_trace(
    a: Graph,
    b: Graph,
    d0: Seq<Diagnostic>,
    d1: Seq<Diagnostic>,
    ns: Seq<Link<Node>>,
    r: Result<(), CompileError>,
    pre: Seq<Graph>,
    post: Seq<Graph>,
    ds: Seq<Seq<Diagnostic>>,
    rs: Seq<Result<(), CompileError>>,
)
    requires
        trace_steps(a, b, d0, d1, ns, r, pre, post, ds, rs),
    ensures
        run_trace(a, b, d0, d1, ns, r),
{
    reveal(run_trace);
}

/// A visit after the steps of a trace extends them by the visited node.
proof fn lemma_steps_visit(
    a: Graph,
    b: Graph,
    c: Graph,
    d0: Seq<Diagnostic>,
    d1: Seq<Diagnostic>,
    d2: Seq<Diagnostic>,
    ns: Seq<Link<Node>>,
    node: Link<Node>,
    r: Result<(), CompileError>,
    pre: Seq<Graph>,
    post: Seq<Graph>,
    ds: Seq<Seq<Diagnostic>>,
    rs: Seq<Result<(), CompileError>>,
)
    requires
        trace_steps(a, b, d0, d1, ns, Ok::<(), CompileError>(()), pre, post, ds, rs),
        b.wf(),
        node.ptr < b.nodes.len(),
        visit_effect(b, c, d1, d2, node, r),
        same_frame(b, c),
    ensures
        trace_steps(a, c, d0, d2, ns.push(node), r, pre.push(c), post.push(c), ds.push(d2), rs.push(r)),
{
    let n = ns.len() as int;
    let ns2 = ns.push(node);
    let pre2 = pre.push(c);
    let post2 = post.push(c);
    let ds2 = ds.push(d2);
    let rs2 = rs.push(r);
    lemma_views_grown_refl(c);
    if n > 0 {
        assert(rs[n - 1] is Ok);
    }
    assert forall|k: int| 0 <= k < n + 1 - 1 implies #[trigger] rs2[k] == Ok::<(), CompileError>(()) by {
        if k < n - 1 {
            assert(rs[k] == Ok::<(), CompileError>(()));
        }
    }
    assert forall|k: int| 0 <= k < n + 1 implies {
        &&& (#[trigger] pre2[k]).wf()
        &&& ns2[k].ptr < pre2[k].nodes.len()
        &&& visit_effect(pre2[k], post2[k], ds2[k], ds2[k + 1], ns2[k], rs2[k])
        &&& rs2[k] is Ok ==> views_grown(post2[k], pre2[k + 1])
        &&& rs2[k] is Err ==> pre2[k + 1] == post2[k]
    } by {
        if k < n {
            assert(pre[k].wf());
            if k < n - 1 {
                assert(rs[k] == Ok::<(), CompileError>(()));
            }
        }
    }
    assert(trace_steps(a, c, d0, d2, ns2, r, pre2, post2, ds2, rs2));
}

/// Views grow reflexively.
proof fn lemma_views_grown_refl(a: Graph)
    requires
        a.wf(),
    ensures
        views_grown(a, a),
{
    assert forall|i: int| 0 <= i < a.ops.len() implies same_but_views(a.ops@[i], #[trigger] a.ops@[i]) by {
        lemma_same_but_views_refl(a.ops@[i]);
    }
}

/// Growing views keeps the frame of the run.
proof fn lemma_views_same_frame(a: Graph, b: Graph, c: Graph)
    requires
        same_frame(a, b),
        views_grown(b, c),
    ensures
        same_frame(a, c),
{
}

/// The step on a `+`, `-`, `*` or `^` op.
pub open spec fn arith_step(a: Graph, b: Graph, p: int, r: Result<Option<Link<Op>>, CompileError>) -> bool {
    match a.ops@[p] {
        Op::Add(_) => add_step(a, b, p, r),
        Op::Sub(_) => sub_step(a, b, p, r),
        Op::Mul(_) => mul_step(a, b, p, r),
        Op::Exp(_) => exp_step(a, b, p, r),
        _ => unchanged(a, b, r),
    }
}

/// The value the op at `p` computes from the values `val` gives its operands, over the
/// integers.
pub open spec fn arith_value(a: Graph, p: int, val: spec_fn(int) -> nat) -> int {
    match a.ops@[p] {
        Op::Add(x) => (val(x.lhs.ptr as int) + val(x.rhs.ptr as int)) as int,
        Op::Sub(x) => val(x.lhs.ptr as int) - val(x.rhs.ptr as int),
        Op::Mul(x) => (val(x.lhs.ptr as int) * val(x.rhs.ptr as int)) as int,
        Op::Exp(x) => power(val(x.lhs.ptr as int) as int, val(x.rhs.ptr as int)),
        _ => 0,
    }
}

/// The constant a value op holds (0 for any other op).
pub open spec fn felt_of(op: Op) -> int {
    match op {
        Op::Value(v) => match v.value.value {
            MirValue::Constant(ConstantValue::Felt(n)) => n as int,
            _ => 0,
        },
        _ => 0,
    }
}

/// The value of the op at `l` after a step from `a` to `b`: what `val` gives an op of `a`, and
/// the constant of an op the step made.
pub open spec fn value_after(a: Graph, b: Graph, l: Link<Op>, val: spec_fn(int) -> nat) -> int {
    if l.ptr < a.ops.len() {
        val(l.ptr as int) as int
    } else {
        felt_of(b.ops@[l.ptr as int])
    }
}

/// The values `val` gives the operands of the op at `p` agree with the constants the operands
/// stand for.
pub open spec fn operands_agree(a: Graph, p: int, val: spec_fn(int) -> nat) -> bool {
    match operands_of(a.ops@[p]) {
        Some((l, r)) => {
            &&& ic(a, l) matches Some(c) ==> val(l.ptr as int) == c
            &&& ic(a, r) matches Some(c) ==> val(r.ptr as int) == c
        },
        None => true,
    }
}

/// The operands of a `+`, `-`, `*` or `^` op.
pub open spec fn operands_of(op: Op) -> Option<(Link<Op>, Link<Op>)> {
    match op {
        Op::Add(x) => Some((x.lhs, x.rhs)),
        Op::Sub(x) => Some((x.lhs, x.rhs)),
        Op::Mul(x) => Some((x.lhs, x.rhs)),
        Op::Exp(x) => Some((x.lhs, x.rhs)),
        _ => None,
    }
}

/// Constant propagation keeps the value of every `+`, `-`, `*` and `^` it rewrites: for any
/// values of the operands that agree with the constants they stand for, the op a step rewrites
/// to has the value the operation computes (over the integers: a fold happens only where the
/// result fits in a `u64`).
proof fn lemma_add_keeps_value(a: Graph, b: Graph, p: int, r: Result<Option<Link<Op>>, CompileError>, val: spec_fn(int) -> nat)
    requires
        a.wf(),
        0 <= p < a.ops.len(),
        a.ops@[p] is Add,
        grows(a, b),
        add_step(a, b, p, r),
        operands_agree(a, p, val),
    ensures
        r matches Ok(Some(l)) ==> value_after(a, b, l, val) == arith_value(a, p, val),
{
    let x = a.ops@[p]->Add_0;
    assert(op_children(a.ops@[p])[0] == x.lhs);
    assert(op_children(a.ops@[p])[1] == x.rhs);
}

proof fn lemma_sub_keeps_value(a: Graph, b: Graph, p: int, r: Result<Option<Link<Op>>, CompileError>, val: spec_fn(int) -> nat)
    requires
        a.wf(),
        0 <= p < a.ops.len(),
        a.ops@[p] is Sub,
        grows(a, b),
        sub_step(a, b, p, r),
        operands_agree(a, p, val),
    ensures
        r matches Ok(Some(l)) ==> value_after(a, b, l, val) == arith_value(a, p, val),
{
    let x = a.ops@[p]->Sub_0;
    assert(op_children(a.ops@[p])[0] == x.lhs);
    assert(op_children(a.ops@[p])[1] == x.rhs);
}

proof fn lemma_mul_keeps_value(a: Graph, b: Graph, p: int, r: Result<Option<Link<Op>>, CompileError>, val: spec_fn(int) -> nat)
    requires
        a.wf(),
        0 <= p < a.ops.len(),
        a.ops@[p] is Mul,
        grows(a, b),
        mul_step(a, b, p, r),
        operands_agree(a, p, val),
    ensures
        r matches Ok(Some(l)) ==> value_after(a, b, l, val) == arith_value(a, p, val),
{
    let x = a.ops@[p]->Mul_0;
    assert(op_children(a.ops@[p])[0] == x.lhs);
    assert(op_children(a.ops@[p])[1] == x.rhs);
    let vl = val(x.lhs.ptr as int);
    let vr = val(x.rhs.ptr as int);
    if def(a, x.lhs) && def(a, x.rhs) {
        if ic(a, x.lhs) == Some(0u64) {
            assert(vl * vr == 0) by (nonlinear_arith)
                requires
                    vl == 0,
            ;
        } else if ic(a, x.rhs) == Some(0u64) {
            assert(vl * vr == 0) by (nonlinear_arith)
                requires
                    vr == 0,
            ;
        } else if ic(a, x.lhs) == Some(1u64) {
            assert(vl * vr == vr) by (nonlinear_arith)
                requires
                    vl == 1,
            ;
        } else if ic(a, x.rhs) == Some(1u64) {
            assert(vl * vr == vl) by (nonlinear_arith)
                requires
                    vr == 1,
            ;
        }
    }
}

proof fn lemma_exp_keeps_value(a: Graph, b: Graph, p: int, r: Result<Option<Link<Op>>, CompileError>, val: spec_fn(int) -> nat)
    requires
        a.wf(),
        0 <= p < a.ops.len(),
        a.ops@[p] is Exp,
        grows(a, b),
        exp_step(a, b, p, r),
        operands_agree(a, p, val),
    ensures
        r matches Ok(Some(l)) ==> value_after(a, b, l, val) == arith_value(a, p, val),
{
    let x = a.ops@[p]->Exp_0;
    assert(op_children(a.ops@[p])[0] == x.lhs);
    assert(op_children(a.ops@[p])[1] == x.rhs);
    let vl = val(x.lhs.ptr as int);
    let vr = val(x.rhs.ptr as int);
    if let Ok(Some(l)) = r {
        if !def(a, x.rhs) {
        } else if ic(a, x.rhs) == Some(0u64) {
            assert(vr == 0);
            assert(power(vl as int, 0) == 1);
            assert(felt_of(b.ops@[l.ptr as int]) == 1);
        } else if !def(a, x.lhs) {
        } else if ic(a, x.lhs) == Some(0u64) {
            if ic(a, x.rhs) is Some {
                lemma_power_small_base(0, vr);
                assert(vl == 0);
                assert(vr != 0);
                assert(power(vl as int, vr) == 0);
                assert(felt_of(b.ops@[l.ptr as int]) == 0);
            }
        } else {
            let cx = ic(a, x.lhs)->Some_0;
            let cy = ic(a, x.rhs)->Some_0;
            assert(vl == cx);
            assert(vr == cy);
            lemma_power_nonneg(cx as int, cy as nat);
            assert(felt_of(b.ops@[l.ptr as int]) == power(cx as int, cy as nat));
        }
    }
}

/// Constant propagation keeps the value of every `+`, `-`, `*` and `^` it rewrites: for any
/// values of the operands that agree with the constants they stand for, the op a step rewrites
/// to has the value the operation computes (over the integers: a fold happens only where the
/// result fits in a `u64`).
pub proof fn law_arith_step_keeps_value(
    a: Graph,
    b: Graph,
    p: int,
    r: Result<Option<Link<Op>>, CompileError>,
    val: spec_fn(int) -> nat,
)
    requires
        a.wf(),
        0 <= p < a.ops.len(),
        grows(a, b),
        arith_step(a, b, p, r),
        operands_agree(a, p, val),
    ensures
        r matches Ok(Some(l)) ==> value_after(a, b, l, val) == arith_value(a, p, val),
{
    match a.ops@[p] {
        Op::Add(_) => lemma_add_keeps_value(a, b, p, r, val),
        Op::Sub(_) => lemma_sub_keeps_value(a, b, p, r, val),
        Op::Mul(_) => lemma_mul_keeps_value(a, b, p, r, val),
        Op::Exp(_) => lemma_exp_keeps_value(a, b, p, r, val),
        _ => {},
    }
}

} // verus!