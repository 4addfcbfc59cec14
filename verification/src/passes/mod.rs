//! Helpers shared by the MIR passes: constant extraction, accessor unrolling and diagnostics.
use vstd::prelude::*;

pub mod constant_propagation;
pub mod cse;
pub mod index_projection;
pub mod inlining;

use crate::ir::Value;
use crate::graph::{extends, Graph};
use crate::ir::{op_children, MirAccessType, Op, Root};
use crate::link::Link;
use crate::span::op_span;
use crate::value::{
    same_value, ConstantValue, MirType, MirValue, PublicInputAccess, SourceSpan, SpannedMirValue, TraceAccess,
};

verus! {

/// Why compilation failed; the details are in the diagnostics emitted.
#[derive(Copy, Clone, PartialEq, Eq, Structural, Debug)]
pub enum CompileError {
    Failed,
}

/// The kinds of diagnostics the passes emit.
#[derive(Copy, Clone, PartialEq, Eq, Structural, Debug)]
pub enum DiagnosticKind {
    /// "the index is not constant during constant propagation"
    IndexNotConstant,
    /// "attempted to access an index which is out of bounds"
    IndexOutOfBounds,
    /// "attempted to access a row which is out of bounds"
    RowOutOfBounds,
    /// "attempted to access a col which is out of bounds"
    ColOutOfBounds,
    /// "Circular dependency detected"
    CircularDependency,
    /// "argument count mismatch"
    ArgumentCountMismatch,
}

impl DiagnosticKind {
    /// The message the diagnostic is emitted with.
    pub fn message(&self) -> (r: &'static str)
        ensures
            *self is IndexNotConstant ==> r@ == "the index is not constant during constant propagation"@,
            *self is IndexOutOfBounds ==> r@ == "attempted to access an index which is out of bounds"@,
            *self is RowOutOfBounds ==> r@ == "attempted to access a row which is out of bounds"@,
            *self is ColOutOfBounds ==> r@ == "attempted to access a col which is out of bounds"@,
            *self is CircularDependency ==> r@ == "Circular dependency detected"@,
            *self is ArgumentCountMismatch ==> r@ == "argument count mismatch"@,
    {
        match self {
            DiagnosticKind::IndexNotConstant => "the index is not constant during constant propagation",
            DiagnosticKind::IndexOutOfBounds => "attempted to access an index which is out of bounds",
            DiagnosticKind::RowOutOfBounds => "attempted to access a row which is out of bounds",
            DiagnosticKind::ColOutOfBounds => "attempted to access a col which is out of bounds",
            DiagnosticKind::CircularDependency => "Circular dependency detected",
            DiagnosticKind::ArgumentCountMismatch => "argument count mismatch",
        }
    }
}

/// An error diagnostic, labelled at a span of source text.
#[derive(Copy, Clone, PartialEq, Eq, Structural, Debug)]
pub struct Diagnostic {
    pub kind: DiagnosticKind,
    pub span: SourceSpan,
}

/// Collects the diagnostics emitted during compilation.
pub struct DiagnosticsHandler {
    pub emitted: Vec<Diagnostic>,
}

impl DiagnosticsHandler {
    pub fn new() -> (r: Self)
        ensures
            r.emitted@ == Seq::<Diagnostic>::empty(),
    {
        DiagnosticsHandler { emitted: Vec::new() }
    }

    /// Emit an error diagnostic.
    pub fn emit(&mut self, kind: DiagnosticKind, span: SourceSpan)
        ensures
            final(self).emitted@ == old(self).emitted@.push(Diagnostic { kind, span }),
    {
        self.emitted.push(Diagnostic { kind, span });
    }
}

/// Large vectors/matrices can create huge graphs when fully unrolled; keep accessors instead.
pub const ACCESSOR_UNROLL_MAX_LEN: usize = 64;

/// The constant an op holds, if it is a constant value.
pub open spec fn value_const(op: Op) -> Option<u64> {
    match op {
        Op::Value(v) => match v.value.value {
            MirValue::Constant(ConstantValue::Felt(n)) => Some(n),
            _ => None,
        },
        _ => None,
    }
}

/// Helper function to extract the constant felt value from an op if it is one.
pub fn get_inner_const(g: &Graph, value: &Link<Op>) -> (r: Option<u64>)
    requires
        value.ptr < g.ops.len(),
    ensures
        r == value_const(g.ops@[value.ptr as int]),
{
    match &g.ops[value.ptr] {
        Op::Value(v) => match &v.value.value {
            MirValue::Constant(ConstantValue::Felt(n)) => Some(*n),
            _ => None,
        },
        _ => None,
    }
}

/// Is the op a vector or matrix too large to unroll accesses into?
pub open spec fn skip_unroll(op: Op) -> bool {
    match op {
        Op::Vector(v) => v.elements.len() > ACCESSOR_UNROLL_MAX_LEN,
        Op::Matrix(m) => m.elements.len() > ACCESSOR_UNROLL_MAX_LEN,
        _ => false,
    }
}

/// Returns true if we should skip unrolling accessors over large vectors/matrices.
pub fn should_skip_accessor_unroll(g: &Graph, indexable: &Link<Op>) -> (r: bool)
    requires
        indexable.ptr < g.ops.len(),
    ensures
        r == skip_unroll(g.ops@[indexable.ptr as int]),
{
    match &g.ops[indexable.ptr] {
        Op::Vector(v) => v.elements.len() > ACCESSOR_UNROLL_MAX_LEN,
        Op::Matrix(m) => m.elements.len() > ACCESSOR_UNROLL_MAX_LEN,
        _ => false,
    }
}

/// Does the call's function return a parameter of a type too large to duplicate: a vector
/// longer than the unroll bound, or a matrix with more rows?
pub open spec fn returns_large(g: Graph, f: Link<Root>) -> bool {
    &&& f.ptr < g.roots.len()
    &&& g.roots@[f.ptr as int] matches Root::Function(func)
    &&& func.return_type.ptr < g.ops.len()
    &&& g.ops@[func.return_type.ptr as int] matches Op::Parameter(param)
    &&& match param.ty {
        MirType::Vector(size) => size > ACCESSOR_UNROLL_MAX_LEN,
        MirType::Matrix(rows, _) => rows > ACCESSOR_UNROLL_MAX_LEN,
        MirType::Felt => false,
    }
}

/// Is the op large enough that it should be shared instead of duplicated: a vector or matrix
/// too large to unroll, an access into one, or a call returning one?
pub open spec fn shares(g: Graph, p: int) -> bool
    decreases g.rank@[p],
    when g.wf() && 0 <= p < g.ops.len()
{
    match g.ops@[p] {
        Op::Vector(v) => v.elements.len() > ACCESSOR_UNROLL_MAX_LEN,
        Op::Matrix(m) => m.elements.len() > ACCESSOR_UNROLL_MAX_LEN,
        Op::Accessor(a) => {
            proof {
                assert(op_children(g.ops@[p])[0] == a.indexable);
            }
            shares(g, a.indexable.ptr as int)
        },
        Op::Call(c) => returns_large(g, c.function),
        _ => false,
    }
}

/// Returns true if a node is large enough that it should be shared instead of duplicated.
pub fn should_share_argument(g: &Graph, node: &Link<Op>) -> (r: bool)
    requires
        g.wf(),
        node.ptr < g.ops.len(),
    ensures
        r == shares(*g, node.ptr as int),
    decreases g.rank@[node.ptr as int],
{
    match &g.ops[node.ptr] {
        Op::Vector(v) => v.elements.len() > ACCESSOR_UNROLL_MAX_LEN,
        Op::Matrix(m) => m.elements.len() > ACCESSOR_UNROLL_MAX_LEN,
        Op::Accessor(a) => {
            proof {
                assert(op_children(g.ops@[node.ptr as int])[0] == a.indexable);
            }
            should_share_argument(g, &a.indexable)
        },
        Op::Call(c) => {
            if c.function.ptr < g.roots.len() {
                if let Root::Function(func) = &g.roots[c.function.ptr] {
                    if func.return_type.ptr < g.ops.len() {
                        if let Op::Parameter(param) = &g.ops[func.return_type.ptr] {
                            return match param.ty {
                                MirType::Vector(size) => size > ACCESSOR_UNROLL_MAX_LEN,
                                MirType::Matrix(rows, _) => rows > ACCESSOR_UNROLL_MAX_LEN,
                                MirType::Felt => false,
                            };
                        }
                    }
                }
            }
            false
        },
        _ => false,
    }
}

/// Extract a usize value from an index expression: `Ok(Some(k))` for a constant `k`,
/// `Ok(None)` for another expression when constants are not required, and an error (with a
/// diagnostic at the index) for another expression when they are.
fn extract_index_value(
    g: &Graph,
    index: &Link<Op>,
    expect_constant_indices: bool,
    diagnostics: &mut DiagnosticsHandler,
) -> (r: Result<Option<usize>, CompileError>)
    requires
        index.ptr < g.ops.len(),
    ensures
        match value_const(g.ops@[index.ptr as int]) {
            Some(v) => r == Ok::<Option<usize>, CompileError>(Some(v as usize))
                && final(diagnostics).emitted@ == old(diagnostics).emitted@,
            None => if expect_constant_indices {
                r == Err::<Option<usize>, CompileError>(CompileError::Failed)
                    && final(diagnostics).emitted@ == old(diagnostics).emitted@.push(
                    Diagnostic {
                        kind: DiagnosticKind::IndexNotConstant,
                        span: op_span(g.ops@[index.ptr as int]),
                    },
                )
            } else {
                r == Ok::<Option<usize>, CompileError>(None) && final(diagnostics).emitted@ == old(
                    diagnostics,
                ).emitted@
            },
        },
{
    match get_inner_const(g, index) {
        Some(value) => Ok(Some(value as usize)),
        None => {
            if expect_constant_indices {
                diagnostics.emit(DiagnosticKind::IndexNotConstant, index.span(g));
                Err(CompileError::Failed)
            } else {
                Ok(None)
            }
        },
    }
}

/// The graph grew by at most new ops without children, keeping every existing op as it was.
pub open spec fn grows(a: Graph, b: Graph) -> bool {
    &&& extends(a, b)
    &&& forall|i: int| a.ops.len() <= i < b.ops.len() ==> crate::ir::op_children(b.ops@[i]).len() == 0
}

/// `op` is a value op holding `v`, whose value carries the span `span`.
pub open spec fn holds_value(op: Op, v: MirValue, span: SourceSpan) -> bool {
    &&& op is Value
    &&& op->Value_0.value.span == span
    &&& same_value(op->Value_0.value.value, v)
}

/// The span carried by the value of a value op.
pub open spec fn value_span(op: Op) -> SourceSpan {
    op->Value_0.value.span
}

/// The trace access an op holds, if it is a trace access value.
pub open spec fn trace_access_of(op: Op) -> Option<TraceAccess> {
    match op {
        Op::Value(v) => match v.value.value {
            MirValue::TraceAccess(t) => Some(t),
            _ => None,
        },
        _ => None,
    }
}

/// `r` (in `b`) is `node` (in `a`) with the row offset `offset` added where it is a trace
/// access value: a new value op holding the shifted access; any other node is `r` itself, the
/// graph unchanged.
pub open spec fn offset_applied(a: Graph, b: Graph, node: Link<Op>, offset: usize, r: Link<Op>) -> bool {
    match trace_access_of(a.ops@[node.ptr as int]) {
        Some(t) => {
            &&& r.ptr == a.ops.len()
            &&& b.ops.len() == a.ops.len() + 1
            &&& holds_value(
                b.ops@[r.ptr as int],
                MirValue::TraceAccess(TraceAccess { row_offset: (t.row_offset + offset) as usize, ..t }),
                value_span(a.ops@[node.ptr as int]),
            )
        },
        None => r == node && b == a,
    }
}

/// The row offset can be added to the node without overflow.
pub open spec fn row_offset_fits(op: Op, offset: usize) -> bool {
    trace_access_of(op) matches Some(t) ==> t.row_offset + offset <= usize::MAX
}

/// Add a row offset to a trace access value (as a new value), and return any other node
/// unchanged.
fn add_row_offset_if_trace_access(g: &mut Graph, node: &Link<Op>, offset: usize) -> (r: Link<Op>)
    requires
        old(g).wf(),
        node.ptr < old(g).ops.len(),
        row_offset_fits(old(g).ops@[node.ptr as int], offset),
    ensures
        grows(*old(g), *final(g)),
        r.ptr < final(g).ops.len(),
        offset_applied(*old(g), *final(g), *node, offset, r),
{
    let found = match &g.ops[node.ptr] {
        Op::Value(v) => match &v.value.value {
            MirValue::TraceAccess(t) => Some((*t, v.value.span)),
            _ => None,
        },
        _ => None,
    };
    match found {
        Some((t, span)) => {
            let value = SpannedMirValue {
                span,
                value: MirValue::TraceAccess(
                    TraceAccess { segment: t.segment, column: t.column, row_offset: t.row_offset + offset },
                ),
            };
            let r = Value::create(g, value, span);
            proof {
                lemma_created_grows(*old(g), *g, r);
            }
            r
        },
        None => *node,
    }
}

/// A graph that grew by one op without children grows.
pub proof fn lemma_created_grows(a: Graph, b: Graph, l: Link<Op>)
    requires
        a.wf(),
        b.wf(),
        l.ptr == a.ops.len(),
        b.ops.len() == a.ops.len() + 1,
        forall|i: int| 0 <= i < a.ops.len() ==> b.ops@[i] == a.ops@[i],
        crate::ir::op_children(b.ops@[l.ptr as int]).len() == 0,
        b.rank@.drop_last() == a.rank@,
        !b.op_dropped@[l.ptr as int],
        b.op_dropped@.drop_last() == a.op_dropped@,
        b.roots == a.roots,
        b.root_dropped == a.root_dropped,
        b.nodes == a.nodes,
        b.owners == a.owners,
        b.buses == a.buses,
        b.boundary_constraints_roots == a.boundary_constraints_roots,
        b.integrity_constraints_roots == a.integrity_constraints_roots,
        b.functions == a.functions,
        b.evaluators == a.evaluators,
        b.bus_table == a.bus_table,
    ensures
        grows(a, b),
{
    assert forall|i: int| 0 <= i < a.ops.len() implies b.rank@[i] == a.rank@[i] by {
        assert(b.rank@.drop_last()[i] == b.rank@[i]);
    }
    assert forall|i: int| 0 <= i < a.ops.len() implies b.op_dropped@[i] == a.op_dropped@[i] by {
        assert(b.op_dropped@.drop_last()[i] == b.op_dropped@[i]);
    }
}

/// What an accessor visit answers when an index is not a constant: an error, with a diagnostic
/// at the index, where constant indices are expected; no rewrite otherwise.
pub open spec fn non_constant_index_outcome(
    r: Result<Option<Link<Op>>, CompileError>,
    expect_constant_indices: bool,
    d0: Seq<Diagnostic>,
    d1: Seq<Diagnostic>,
    span: SourceSpan,
) -> bool {
    if expect_constant_indices {
        &&& r == Err::<Option<Link<Op>>, CompileError>(CompileError::Failed)
        &&& d1 == d0.push(Diagnostic { kind: DiagnosticKind::IndexNotConstant, span })
    } else {
        &&& r == Ok::<Option<Link<Op>>, CompileError>(None)
        &&& d1 == d0
    }
}

/// An error with one diagnostic of the given kind at the given span.
pub open spec fn failed_with(
    r: Result<Option<Link<Op>>, CompileError>,
    d0: Seq<Diagnostic>,
    d1: Seq<Diagnostic>,
    kind: DiagnosticKind,
    span: SourceSpan,
) -> bool {
    &&& r == Err::<Option<Link<Op>>, CompileError>(CompileError::Failed)
    &&& d1 == d0.push(Diagnostic { kind, span })
}

/// The value `v` with its index (a public input) or column (a trace access) moved on by `k`.
pub open spec fn shifted_by(v: MirValue, k: usize) -> MirValue {
    match v {
        MirValue::PublicInput(p) => MirValue::PublicInput(
            PublicInputAccess { name: p.name, index: (p.index + k) as usize },
        ),
        MirValue::TraceAccess(t) => MirValue::TraceAccess(
            TraceAccess { column: (t.column + k) as usize, ..t },
        ),
        _ => v,
    }
}

/// Indexing `op` at the constant `k` is defined: `op` is a vector (whose element at `k`, if it
/// has one, takes the row offset without overflow), or a public input or trace access value
/// whose index or column can be moved on by `k`.
pub open spec fn index_access_defined(ops: Seq<Op>, op: Op, k: usize, offset: usize) -> bool {
    match op {
        Op::Vector(v) => k < v.elements.len() ==> row_offset_fits(
            ops[v.elements@[k as int].ptr as int],
            offset,
        ),
        Op::Value(x) => match x.value.value {
            MirValue::PublicInput(p) => p.index + k <= usize::MAX,
            MirValue::TraceAccess(t) => t.column + k <= usize::MAX,
            _ => false,
        },
        _ => false,
    }
}

/// The outcome of visiting an accessor that indexes `indexable` at `index` (graph `a` and
/// diagnostics `d0` before, `b` and `d1` after): the element at a constant index (with the row
/// offset added), an out-of-bounds error, or the value with its index or column moved on.
pub open spec fn index_access_outcome(
    a: Graph,
    b: Graph,
    d0: Seq<Diagnostic>,
    d1: Seq<Diagnostic>,
    indexable: Link<Op>,
    index: Link<Op>,
    offset: usize,
    expect_constant_indices: bool,
    r: Result<Option<Link<Op>>, CompileError>,
) -> bool {
    match value_const(a.ops@[index.ptr as int]) {
        None => b == a && non_constant_index_outcome(
            r,
            expect_constant_indices,
            d0,
            d1,
            op_span(a.ops@[index.ptr as int]),
        ),
        Some(v) => {
            let k = v as usize;
            match a.ops@[indexable.ptr as int] {
                Op::Vector(vec) => if k < vec.elements.len() {
                    &&& r matches Ok(Some(l))
                    &&& d1 == d0
                    &&& offset_applied(a, b, vec.elements@[k as int], offset, r->Ok_0->Some_0)
                } else {
                    &&& b == a
                    &&& failed_with(
                        r,
                        d0,
                        d1,
                        DiagnosticKind::IndexOutOfBounds,
                        op_span(a.ops@[index.ptr as int]),
                    )
                },
                Op::Value(x) => {
                    &&& r matches Ok(Some(l))
                    &&& d1 == d0
                    &&& r->Ok_0->Some_0.ptr == a.ops.len()
                    &&& b.ops.len() == a.ops.len() + 1
                    &&& holds_value(
                        b.ops@[a.ops.len() as int],
                        shifted_by(x.value.value, k),
                        x.value.span,
                    )
                },
                _ => true,
            }
        },
    }
}

/// The rows of a vector or matrix op (a vector's rows are its elements).
pub open spec fn op_rows(op: Op) -> Seq<Link<Op>> {
    match op {
        Op::Vector(v) => v.elements@,
        Op::Matrix(m) => m.elements@,
        _ => seq![],
    }
}

/// Indexing the row `i` of `op` is defined: `op` is a vector or a matrix, and its row `i`, if it
/// has one, is a vector.
pub open spec fn matrix_access_defined(ops: Seq<Op>, op: Op, i: usize) -> bool {
    &&& (op is Vector || op is Matrix)
    &&& i < op_rows(op).len() ==> ops[op_rows(op)[i as int].ptr as int] is Vector
}

/// The outcome of visiting an accessor that indexes `indexable` at `row` and `col`: the element
/// at constant indices, or an out-of-bounds error on the row or on the column.
pub open spec fn matrix_access_outcome(
    ops: Seq<Op>,
    d0: Seq<Diagnostic>,
    d1: Seq<Diagnostic>,
    indexable: Link<Op>,
    row: Link<Op>,
    col: Link<Op>,
    expect_constant_indices: bool,
    r: Result<Option<Link<Op>>, CompileError>,
) -> bool {
    match value_const(ops[row.ptr as int]) {
        None => non_constant_index_outcome(
            r,
            expect_constant_indices,
            d0,
            d1,
            op_span(ops[row.ptr as int]),
        ),
        Some(rv) => match value_const(ops[col.ptr as int]) {
            None => non_constant_index_outcome(
                r,
                expect_constant_indices,
                d0,
                d1,
                op_span(ops[col.ptr as int]),
            ),
            Some(cv) => {
                let i = rv as usize;
                let j = cv as usize;
                let rows = op_rows(ops[indexable.ptr as int]);
                if i >= rows.len() {
                    failed_with(r, d0, d1, DiagnosticKind::RowOutOfBounds, op_span(ops[row.ptr as int]))
                } else {
                    let es = op_rows(ops[rows[i as int].ptr as int]);
                    if j >= es.len() {
                        failed_with(
                            r,
                            d0,
                            d1,
                            DiagnosticKind::ColOutOfBounds,
                            op_span(ops[col.ptr as int]),
                        )
                    } else {
                        r == Ok::<Option<Link<Op>>, CompileError>(Some(es[j as int])) && d1 == d0
                    }
                }
            },
        },
    }
}

/// An accessor at constant row `rv` and column `cv` of a vector or matrix of rows `rows` resolves
/// to the element at position `cv` of the row at position `rv`, where both exist; it fails on the
/// row (`RowOutOfBounds`) exactly when there is no row `rv`, and on the column
/// (`ColOutOfBounds`) exactly when row `rv` is a vector with no element `cv`.
pub proof fn law_matrix_access_row_then_column(
    ops: Seq<Op>,
    d0: Seq<Diagnostic>,
    d1: Seq<Diagnostic>,
    indexable: Link<Op>,
    row: Link<Op>,
    col: Link<Op>,
    expect_constant_indices: bool,
    r: Result<Option<Link<Op>>, CompileError>,
    rv: u64,
    cv: u64,
    rows: Seq<Link<Op>>,
)
    requires
        matrix_access_outcome(ops, d0, d1, indexable, row, col, expect_constant_indices, r),
        ops[row.ptr as int] matches Op::Value(v) && v.value.value == MirValue::Constant(ConstantValue::Felt(rv)),
        ops[col.ptr as int] matches Op::Value(v) && v.value.value == MirValue::Constant(ConstantValue::Felt(cv)),
        (ops[indexable.ptr as int] matches Op::Vector(v) && v.elements@ == rows) || (ops[indexable.ptr as int] matches Op::Matrix(m)
            && m.elements@ == rows),
    ensures
        (rv as usize) < rows.len() && ops[rows[(rv as usize) as int].ptr as int] is Vector && (cv as usize)
            < ops[rows[(rv as usize) as int].ptr as int]->Vector_0.elements.len() ==> r == Ok::<Option<Link<Op>>, CompileError>(
            Some(ops[rows[(rv as usize) as int].ptr as int]->Vector_0.elements@[(cv as usize) as int]),
        ),
        ((rv as usize) >= rows.len()) == (r is Err && d1.len() == d0.len() + 1 && d1.last().kind is RowOutOfBounds),
        (rv as usize) < rows.len() && ops[rows[(rv as usize) as int].ptr as int] is Vector && (cv as usize)
            >= ops[rows[(rv as usize) as int].ptr as int]->Vector_0.elements.len() ==> r is Err && d1.len() == d0.len() + 1
            && d1.last().kind is ColOutOfBounds,
        r is Ok ==> d1 == d0,
{
}

/// An accessor at constant index `iv` of a vector of elements `elems` resolves to the element at
/// position `iv` (a new trace access where that element is one and the offset is not zero), the
/// graph otherwise unchanged; it fails with `IndexOutOfBounds` exactly when there is no such
/// element.
pub proof fn law_index_access_element(
    a: Graph,
    b: Graph,
    d0: Seq<Diagnostic>,
    d1: Seq<Diagnostic>,
    indexable: Link<Op>,
    index: Link<Op>,
    offset: usize,
    expect_constant_indices: bool,
    r: Result<Option<Link<Op>>, CompileError>,
    iv: u64,
    elems: Seq<Link<Op>>,
)
    requires
        index_access_outcome(a, b, d0, d1, indexable, index, offset, expect_constant_indices, r),
        a.ops@[index.ptr as int] matches Op::Value(v) && v.value.value == MirValue::Constant(ConstantValue::Felt(iv)),
        a.ops@[indexable.ptr as int] matches Op::Vector(v) && v.elements@ == elems,
    ensures
        (iv as usize) < elems.len() && !(a.ops@[elems[(iv as usize) as int].ptr as int] is Value) ==> r == Ok::<
            Option<Link<Op>>,
            CompileError,
        >(Some(elems[(iv as usize) as int])) && b == a && d1 == d0,
        ((iv as usize) >= elems.len()) == (r is Err),
        (iv as usize) >= elems.len() ==> d1.len() == d0.len() + 1 && d1.last().kind is IndexOutOfBounds,
{
}

/// What an index access resolves to once its index is known.
enum IndexPlan {
    Element(Link<Op>),
    OutOfBounds,
    Shifted(MirValue, SourceSpan),
}

/// Unroll an accessor that indexes `indexable` at `index`.
fn unroll_accessor_index_access_type(
    g: &mut Graph,
    indexable: Link<Op>,
    index: Link<Op>,
    accessor_offset: usize,
    expect_constant_indices: bool,
    diagnostics: &mut DiagnosticsHandler,
) -> (r: Result<Option<Link<Op>>, CompileError>)
    requires
        old(g).wf(),
        indexable.ptr < old(g).ops.len(),
        index.ptr < old(g).ops.len(),
        value_const(old(g).ops@[index.ptr as int]) matches Some(v) ==> index_access_defined(
            old(g).ops@,
            old(g).ops@[indexable.ptr as int],
            v as usize,
            accessor_offset,
        ),
    ensures
        grows(*old(g), *final(g)),
        index_access_outcome(
            *old(g),
            *final(g),
            old(diagnostics).emitted@,
            final(diagnostics).emitted@,
            indexable,
            index,
            accessor_offset,
            expect_constant_indices,
            r,
        ),
{
    let k = match extract_index_value(g, &index, expect_constant_indices, diagnostics) {
        Err(e) => return Err(e),
        Ok(None) => return Ok(None),
        Ok(Some(k)) => k,
    };
    let plan = match &g.ops[indexable.ptr] {
        Op::Vector(v) => {
            if k < v.elements.len() {
                IndexPlan::Element(v.elements[k])
            } else {
                IndexPlan::OutOfBounds
            }
        },
        Op::Value(x) => match &x.value.value {
            MirValue::PublicInput(p) => IndexPlan::Shifted(
                MirValue::PublicInput(PublicInputAccess { name: p.name, index: p.index + k }),
                x.value.span,
            ),
            MirValue::TraceAccess(t) => IndexPlan::Shifted(
                MirValue::TraceAccess(
                    TraceAccess { segment: t.segment, column: t.column + k, row_offset: t.row_offset },
                ),
                x.value.span,
            ),
            _ => {
                proof {
                    assert(false);
                }
                IndexPlan::OutOfBounds
            },
        },
        _ => {
            proof {
                assert(false);
            }
            IndexPlan::OutOfBounds
        },
    };
    match plan {
        IndexPlan::Element(child) => {
            proof {
                let vec = old(g).ops@[indexable.ptr as int]->Vector_0;
                assert(op_children(old(g).ops@[indexable.ptr as int])[k as int] == child);
            }
            let l = add_row_offset_if_trace_access(g, &child, accessor_offset);
            Ok(Some(l))
        },
        IndexPlan::OutOfBounds => {
            diagnostics.emit(DiagnosticKind::IndexOutOfBounds, index.span(g));
            Err(CompileError::Failed)
        },
        IndexPlan::Shifted(value, span) => {
            let l = Value::create(g, SpannedMirValue { span, value }, span);
            proof {
                lemma_created_grows(*old(g), *g, l);
            }
            Ok(Some(l))
        },
    }
}

/// What a matrix access resolves to once its row and column are known.
enum MatrixPlan {
    Element(Link<Op>),
    RowOutOfBounds,
    ColOutOfBounds,
}

/// Unroll an accessor that indexes `indexable` at `row` and `col`.
fn unroll_accessor_matrix_access_type(
    g: &Graph,
    indexable: Link<Op>,
    row: Link<Op>,
    col: Link<Op>,
    expect_constant_indices: bool,
    diagnostics: &mut DiagnosticsHandler,
) -> (r: Result<Option<Link<Op>>, CompileError>)
    requires
        g.wf(),
        indexable.ptr < g.ops.len(),
        row.ptr < g.ops.len(),
        col.ptr < g.ops.len(),
        value_const(g.ops@[row.ptr as int]) matches Some(rv) ==> (value_const(
            g.ops@[col.ptr as int],
        ) is Some ==> matrix_access_defined(g.ops@, g.ops@[indexable.ptr as int], rv as usize)),
    ensures
        matrix_access_outcome(
            g.ops@,
            old(diagnostics).emitted@,
            final(diagnostics).emitted@,
            indexable,
            row,
            col,
            expect_constant_indices,
            r,
        ),
{
    let i = match extract_index_value(g, &row, expect_constant_indices, diagnostics) {
        Err(e) => return Err(e),
        Ok(None) => return Ok(None),
        Ok(Some(i)) => i,
    };
    let j = match extract_index_value(g, &col, expect_constant_indices, diagnostics) {
        Err(e) => return Err(e),
        Ok(None) => return Ok(None),
        Ok(Some(j)) => j,
    };
    let ghost ops = g.ops@;
    let rows: &Vec<Link<Op>> = match &g.ops[indexable.ptr] {
        Op::Vector(v) => &v.elements,
        Op::Matrix(m) => &m.elements,
        _ => {
            proof {
                assert(false);
            }
            return Ok(None);
        },
    };
    assert(rows@ == op_rows(ops[indexable.ptr as int]));
    let plan = if i < rows.len() {
        let row_accessed = rows[i];
        proof {
            assert(op_children(ops[indexable.ptr as int])[i as int] == row_accessed);
        }
        match &g.ops[row_accessed.ptr] {
            Op::Vector(v) => {
                if j < v.elements.len() {
                    MatrixPlan::Element(v.elements[j])
                } else {
                    MatrixPlan::ColOutOfBounds
                }
            },
            _ => {
                proof {
                    assert(false);
                }
                MatrixPlan::ColOutOfBounds
            },
        }
    } else {
        MatrixPlan::RowOutOfBounds
    };
    match plan {
        MatrixPlan::Element(child) => Ok(Some(child)),
        MatrixPlan::RowOutOfBounds => {
            diagnostics.emit(DiagnosticKind::RowOutOfBounds, row.span(g));
            Err(CompileError::Failed)
        },
        MatrixPlan::ColOutOfBounds => {
            diagnostics.emit(DiagnosticKind::ColOutOfBounds, col.span(g));
            Err(CompileError::Failed)
        },
    }
}

/// Visiting the accessor `op` is defined: its indexable takes the indices it is given, once
/// they are constants (and the row offset without overflow).
pub open spec fn accessor_visit_defined(ops: Seq<Op>, op: Op) -> bool {
    match op {
        Op::Accessor(a) => match a.access_type {
            MirAccessType::Default => row_offset_fits(ops[a.indexable.ptr as int], a.offset),
            MirAccessType::Index(i) => value_const(ops[i.ptr as int]) matches Some(v)
                ==> index_access_defined(ops, ops[a.indexable.ptr as int], v as usize, a.offset),
            MirAccessType::Matrix(rw, c) => value_const(ops[rw.ptr as int]) matches Some(v) ==> (
            value_const(ops[c.ptr as int]) is Some ==> matrix_access_defined(
                ops,
                ops[a.indexable.ptr as int],
                v as usize,
            )),
        },
        _ => true,
    }
}

/// The outcome of visiting the accessor op at `accessor` (graph `a` and diagnostics `d0` before,
/// `b` and `d1` after).
pub open spec fn accessor_visit_outcome(
    a: Graph,
    b: Graph,
    d0: Seq<Diagnostic>,
    d1: Seq<Diagnostic>,
    p: int,
    expect_constant_indices: bool,
    r: Result<Option<Link<Op>>, CompileError>,
) -> bool {
    match a.ops@[p] {
        Op::Accessor(x) => match x.access_type {
            MirAccessType::Default => {
                &&& r matches Ok(Some(l))
                &&& d1 == d0
                &&& offset_applied(a, b, x.indexable, x.offset, r->Ok_0->Some_0)
            },
            MirAccessType::Index(i) => index_access_outcome(
                a,
                b,
                d0,
                d1,
                x.indexable,
                i,
                x.offset,
                expect_constant_indices,
                r,
            ),
            MirAccessType::Matrix(rw, c) => b == a && matrix_access_outcome(
                a.ops@,
                d0,
                d1,
                x.indexable,
                rw,
                c,
                expect_constant_indices,
                r,
            ),
        },
        _ => r == Ok::<Option<Link<Op>>, CompileError>(None) && b == a && d1 == d0,
    }
}

/// Handle the visit of an accessor node, used by both unrolling and constant propagation.
/// `expect_constant_indices` says whether the indices must be constant at this stage.
pub fn handle_accessor_visit(
    g: &mut Graph,
    accessor: Link<Op>,
    expect_constant_indices: bool,
    diagnostics: &mut DiagnosticsHandler,
) -> (r: Result<Option<Link<Op>>, CompileError>)
    requires
        old(g).wf(),
        accessor.ptr < old(g).ops.len(),
        accessor_visit_defined(old(g).ops@, old(g).ops@[accessor.ptr as int]),
    ensures
        grows(*old(g), *final(g)),
        accessor_visit_outcome(
            *old(g),
            *final(g),
            old(diagnostics).emitted@,
            final(diagnostics).emitted@,
            accessor.ptr as int,
            expect_constant_indices,
            r,
        ),
{
    let (indexable, access_type, offset) = match &g.ops[accessor.ptr] {
        Op::Accessor(a) => (a.indexable, a.access_type.clone(), a.offset),
        _ => return Ok(None),
    };
    proof {
        assert(op_children(old(g).ops@[accessor.ptr as int])[0] == indexable);
    }
    match access_type {
        MirAccessType::Default => Ok(Some(add_row_offset_if_trace_access(g, &indexable, offset))),
        MirAccessType::Index(index) => {
            proof {
                assert(op_children(old(g).ops@[accessor.ptr as int])[1] == index);
            }
            unroll_accessor_index_access_type(
                g,
                indexable,
                index,
                offset,
                expect_constant_indices,
                diagnostics,
            )
        },
        MirAccessType::Matrix(row, col) => {
            proof {
                assert(op_children(old(g).ops@[accessor.ptr as int])[1] == row);
                assert(op_children(old(g).ops@[accessor.ptr as int])[2] == col);
            }
            unroll_accessor_matrix_access_type(
                g,
                indexable,
                row,
                col,
                expect_constant_indices,
                diagnostics,
            )
        },
    }
}

/// Can the row offset be added to the node without overflow?
fn offset_fits(g: &Graph, node: &Link<Op>, offset: usize) -> (r: bool)
    requires
        node.ptr < g.ops.len(),
    ensures
        r == row_offset_fits(g.ops@[node.ptr as int], offset),
{
    match &g.ops[node.ptr] {
        Op::Value(v) => match &v.value.value {
            MirValue::TraceAccess(t) => t.row_offset <= usize::MAX - offset,
            _ => true,
        },
        _ => true,
    }
}

/// Whether visiting the accessor at `accessor` is defined (see [accessor_visit_defined]).
pub fn accessor_visit_is_defined(g: &Graph, accessor: &Link<Op>) -> (r: bool)
    requires
        g.wf(),
        accessor.ptr < g.ops.len(),
    ensures
        r == accessor_visit_defined(g.ops@, g.ops@[accessor.ptr as int]),
{
    match &g.ops[accessor.ptr] {
        Op::Accessor(a) => {
            proof {
                assert(op_children(g.ops@[accessor.ptr as int])[0] == a.indexable);
            }
            match &a.access_type {
                MirAccessType::Default => offset_fits(g, &a.indexable, a.offset),
                MirAccessType::Index(i) => {
                    proof {
                        assert(op_children(g.ops@[accessor.ptr as int])[1] == *i);
                    }
                    match get_inner_const(g, i) {
                        None => true,
                        Some(v) => {
                            let k = v as usize;
                            match &g.ops[a.indexable.ptr] {
                                Op::Vector(vec) => {
                                    if k < vec.elements.len() {
                                        proof {
                                            assert(op_children(g.ops@[a.indexable.ptr as int])[k as int] == vec.elements@[k as int]);
                                        }
                                        offset_fits(g, &vec.elements[k], a.offset)
                                    } else {
                                        true
                                    }
                                },
                                Op::Value(x) => match &x.value.value {
                                    MirValue::PublicInput(pi) => pi.index <= usize::MAX - k,
                                    MirValue::TraceAccess(t) => t.column <= usize::MAX - k,
                                    _ => false,
                                },
                                _ => false,
                            }
                        },
                    }
                },
                MirAccessType::Matrix(rw, c) => {
                    proof {
                        assert(op_children(g.ops@[accessor.ptr as int])[1] == *rw);
                        assert(op_children(g.ops@[accessor.ptr as int])[2] == *c);
                    }
                    match (get_inner_const(g, rw), get_inner_const(g, c)) {
                        (Some(v), Some(_)) => {
                            let i = v as usize;
                            let rows: &Vec<Link<Op>> = match &g.ops[a.indexable.ptr] {
                                Op::Vector(vec) => &vec.elements,
                                Op::Matrix(m) => &m.elements,
                                _ => return false,
                            };
                            if i < rows.len() {
                                proof {
                                    assert(op_children(g.ops@[a.indexable.ptr as int])[i as int] == rows@[i as int]);
                                }
                                match &g.ops[rows[i].ptr] {
                                    Op::Vector(_) => true,
                                    _ => false,
                                }
                            } else {
                                true
                            }
                        },
                        _ => true,
                    }
                },
            }
        },
        _ => true,
    }
}

/// The op an accessor visit rewrites to ranks below the accessor, or has no children.
pub proof fn lemma_accessor_result_fits(
    a: Graph,
    b: Graph,
    d0: Seq<Diagnostic>,
    d1: Seq<Diagnostic>,
    accessor: Link<Op>,
    expect_constant_indices: bool,
    r: Result<Option<Link<Op>>, CompileError>,
)
    requires
        a.wf(),
        accessor.ptr < a.ops.len(),
        grows(a, b),
        accessor_visit_defined(a.ops@, a.ops@[accessor.ptr as int]),
        accessor_visit_outcome(a, b, d0, d1, accessor.ptr as int, expect_constant_indices, r),
    ensures
        r matches Ok(Some(l)) ==> {
            &&& l.ptr < b.ops.len()
            &&& (b.rank@[l.ptr as int] < b.rank@[accessor.ptr as int] || op_children(
                b.ops@[l.ptr as int],
            ).len() == 0)
        },
{
    let p = accessor.ptr as int;
    assert(b.rank@[p] == a.rank@[p]);
    if let Op::Accessor(x) = a.ops@[p] {
        assert(op_children(a.ops@[p])[0] == x.indexable);
        let xi = x.indexable.ptr as int;
        match x.access_type {
            MirAccessType::Default => {
                lemma_offset_applied_fits(a, b, x.indexable, x.offset, r, p);
            },
            MirAccessType::Index(i) => {
                assert(op_children(a.ops@[p])[1] == i);
                if let Some(v) = value_const(a.ops@[i.ptr as int]) {
                    let k = v as usize;
                    if a.ops@[xi] is Value {
                        assert(b.ops@[a.ops.len() as int] is Value);
                    }
                    if let Op::Vector(vec) = a.ops@[xi] {
                        if k < vec.elements.len() {
                            assert(op_children(a.ops@[xi])[k as int] == vec.elements@[k as int]);
                            lemma_offset_applied_fits(a, b, vec.elements@[k as int], x.offset, r, p);
                        }
                    }
                }
            },
            MirAccessType::Matrix(rw, c) => {
                assert(op_children(a.ops@[p])[1] == rw);
                assert(op_children(a.ops@[p])[2] == c);
                if let (Some(rv), Some(cv)) = (value_const(a.ops@[rw.ptr as int]), value_const(a.ops@[c.ptr as int])) {
                    let i = rv as usize;
                    let j = cv as usize;
                    let rows = op_rows(a.ops@[xi]);
                    if i < rows.len() {
                        assert(op_children(a.ops@[xi])[i as int] == rows[i as int]);
                        let ri = rows[i as int].ptr as int;
                        let es = op_rows(a.ops@[ri]);
                        if j < es.len() {
                            assert(op_children(a.ops@[ri])[j as int] == es[j as int]);
                            assert(b.rank@[es[j as int].ptr as int] == a.rank@[es[j as int].ptr as int]);
                        }
                    }
                }
            },
        }
    }
}

/// The op an offset was added to (or a new value op) ranks below `p` or has no children, where
/// `node` ranks below `p`.
proof fn lemma_offset_applied_fits(
    a: Graph,
    b: Graph,
    node: Link<Op>,
    offset: usize,
    r: Result<Option<Link<Op>>, CompileError>,
    p: int,
)
    requires
        a.wf(),
        grows(a, b),
        0 <= p < a.ops.len(),
        node.ptr < a.ops.len(),
        a.rank@[node.ptr as int] < a.rank@[p],
        r matches Ok(Some(l)) && offset_applied(a, b, node, offset, l),
    ensures
        r matches Ok(Some(l)) ==> {
            &&& l.ptr < b.ops.len()
            &&& (b.rank@[l.ptr as int] < b.rank@[p] || op_children(b.ops@[l.ptr as int]).len() == 0)
        },
{
    let l = r->Ok_0->Some_0;
    assert(b.rank@[p] == a.rank@[p]);
    assert(b.rank@[node.ptr as int] == a.rank@[node.ptr as int]);
    if trace_access_of(a.ops@[node.ptr as int]) is Some {
        assert(b.ops@[l.ptr as int] is Value);
    }
}

} // verus!