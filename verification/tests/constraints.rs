//! Constraint programs, each given as the MIR graph that its AirScript source lowers to (let-bound
//! values inlined and list comprehensions unrolled), built by hand since this library holds no
//! parser, and run through constant propagation. The comment above each test gives the program.

use air_mir::graph::Graph;
use air_mir::ir::{
    Accessor, Add, Boundary, Bus, Enf, Exp, MirAccessType, Mul, Op, Sub, Value, Vector,
};
use air_mir::link::Link;
use air_mir::passes::constant_propagation::ConstantPropagation;
use air_mir::passes::{CompileError, DiagnosticKind, DiagnosticsHandler};
use air_mir::value::{
    BoundaryKind, BusType, ConstantValue, Identifier, MirValue, SourceSpan, SpannedMirValue,
    TraceAccess,
};

fn span() -> SourceSpan {
    SourceSpan::default()
}

fn value(g: &mut Graph, v: MirValue) -> Link<Op> {
    Value::create(g, SpannedMirValue { span: span(), value: v }, span())
}

fn felt(g: &mut Graph, c: u64) -> Link<Op> {
    value(g, MirValue::Constant(ConstantValue::Felt(c)))
}

/// The main trace column `column`, at the current row (`row_offset` 0) or the next (1).
fn main_col(g: &mut Graph, column: usize, row_offset: usize) -> Link<Op> {
    value(g, MirValue::TraceAccess(TraceAccess::new(0, column, row_offset)))
}

fn index(g: &mut Graph, indexable: Link<Op>, i: Link<Op>) -> Link<Op> {
    Accessor::create(g, indexable, MirAccessType::Index(i), 0, span())
}

fn at(g: &mut Graph, indexable: Link<Op>, i: u64) -> Link<Op> {
    let i = felt(g, i);
    index(g, indexable, i)
}

fn add(g: &mut Graph, a: Link<Op>, b: Link<Op>) -> Link<Op> {
    Add::create(g, a, b, span())
}

fn mul(g: &mut Graph, a: Link<Op>, b: Link<Op>) -> Link<Op> {
    Mul::create(g, a, b, span())
}

fn vector(g: &mut Graph, elements: Vec<Link<Op>>) -> Link<Op> {
    Vector::create(g, elements, span())
}

fn constants(g: &mut Graph, cs: &[u64]) -> Link<Op> {
    let elements = cs.iter().map(|c| felt(g, *c)).collect();
    vector(g, elements)
}

/// `enf lhs = rhs`, in the boundary constraints or the integrity constraints.
fn enforce(g: &mut Graph, boundary: bool, lhs: Link<Op>, rhs: Link<Op>) {
    let sub = Sub::create(g, lhs, rhs, span());
    let enf = Enf::create(g, sub, span());
    if boundary {
        g.insert_boundary_constraints_root(enf);
    } else {
        g.insert_integrity_constraints_root(enf);
    }
}

/// `column.first` or `column.last`.
fn boundary_of(g: &mut Graph, kind: BoundaryKind, column: usize) -> Link<Op> {
    let c = main_col(g, column, 0);
    Boundary::create(g, kind, c, span())
}

/// `enf clk' = clk + 1`.
fn clk_increments(g: &mut Graph) {
    let next = main_col(g, 0, 1);
    let cur = main_col(g, 0, 0);
    let one = felt(g, 1);
    let sum = add(g, cur, one);
    enforce(g, false, next, sum);
}

fn compile(g: &mut Graph) -> (Result<(), CompileError>, DiagnosticsHandler) {
    let mut diagnostics = DiagnosticsHandler::new();
    let mut pass = ConstantPropagation::new();
    let r = pass.run(g, &mut diagnostics);
    (r, diagnostics)
}

fn expect_diagnostic(g: &mut Graph, message: &str) {
    let (r, diagnostics) = compile(g);
    assert!(r.is_err());
    assert!(diagnostics.emitted.iter().any(|d| d.kind.message() == message));
}

/// Two buses whose first and last rows are `null`; `enf a = 0`.
#[test]
fn buses_in_boundary_constraints() {
    let mut g = Graph::create();
    let p = Bus::create(&mut g, Identifier(1), BusType::MultiSet, span());
    let q = Bus::create(&mut g, Identifier(2), BusType::Logup, span());
    for bus in [p, q] {
        let null = value(&mut g, MirValue::Null);
        assert!(bus.set_first(&mut g, null).is_ok());
        let null = value(&mut g, MirValue::Null);
        assert!(bus.set_last(&mut g, null).is_ok());
    }
    let a = main_col(&mut g, 0, 0);
    let zero = felt(&mut g, 0);
    enforce(&mut g, false, a, zero);
    assert!(compile(&mut g).0.is_ok());
}

/// The same buses, with insertions and removals in the integrity constraints.
#[test]
fn buses_in_integrity_constraints() {
    let mut g = Graph::create();
    let p = Bus::create(&mut g, Identifier(1), BusType::MultiSet, span());
    let q = Bus::create(&mut g, Identifier(2), BusType::Logup, span());
    for bus in [p, q] {
        let null = value(&mut g, MirValue::Null);
        assert!(bus.set_first(&mut g, null).is_ok());
        let null = value(&mut g, MirValue::Null);
        assert!(bus.set_last(&mut g, null).is_ok());
    }
    let a = main_col(&mut g, 0, 0);
    let zero = felt(&mut g, 0);
    enforce(&mut g, false, a, zero);
    // p.insert(1) when 1; p.remove(1) when 1;
    for insert in [true, false] {
        let one = felt(&mut g, 1);
        let latch = felt(&mut g, 1);
        if insert {
            p.insert(&mut g, &vec![one], latch, span());
        } else {
            p.remove(&mut g, &vec![one], latch, span());
        }
    }
    // q.insert(1, 2) when 1 (twice); q.remove(1, 2) with 2;
    for (insert, latch) in [(true, 1), (true, 1), (false, 2)] {
        let one = felt(&mut g, 1);
        let two = felt(&mut g, 2);
        let latch = felt(&mut g, latch);
        if insert {
            q.insert(&mut g, &vec![one, two], latch, span());
        } else {
            q.remove(&mut g, &vec![one, two], latch, span());
        }
    }
    assert_eq!(g.buses[0].columns.len(), 2);
    assert_eq!(g.buses[1].columns.len(), 3);
    assert!(compile(&mut g).0.is_ok());
}

/// `let x = [0, 1, 2, 3, 4]; enf a = x[1 + 1];`
#[test]
fn basic_computed_indices() {
    let mut g = Graph::create();
    let x = constants(&mut g, &[0, 1, 2, 3, 4]);
    let one_a = felt(&mut g, 1);
    let one_b = felt(&mut g, 1);
    let i = add(&mut g, one_a, one_b);
    let x_i = index(&mut g, x, i);
    let a = main_col(&mut g, 0, 0);
    enforce(&mut g, false, a, x_i);
    assert!(compile(&mut g).0.is_ok());
}

/// `let x = [0, 1, 2, 3, 4]; let y = [i * x[1 + 1] for i in 0..5]; enf a = y[1 + 1];`
#[test]
fn basic_computed_indices_in_lc() {
    let mut g = Graph::create();
    let x = constants(&mut g, &[0, 1, 2, 3, 4]);
    let mut ys = Vec::new();
    for i in 0..5u64 {
        let one_a = felt(&mut g, 1);
        let one_b = felt(&mut g, 1);
        let k = add(&mut g, one_a, one_b);
        let x_k = index(&mut g, x, k);
        let iv = felt(&mut g, i);
        ys.push(mul(&mut g, iv, x_k));
    }
    let y = vector(&mut g, ys);
    let one_a = felt(&mut g, 1);
    let one_b = felt(&mut g, 1);
    let k = add(&mut g, one_a, one_b);
    let y_k = index(&mut g, y, k);
    let a = main_col(&mut g, 0, 0);
    enforce(&mut g, false, a, y_k);
    assert!(compile(&mut g).0.is_ok());
}

/// `let x = [0, 1, 2, 3, 4]; let y = [i * x[i + 1] for i in 0..4]; enf a = y[1 + 1];`
#[test]
fn computed_indices_in_lc() {
    let mut g = Graph::create();
    let x = constants(&mut g, &[0, 1, 2, 3, 4]);
    let mut ys = Vec::new();
    for i in 0..4u64 {
        let iv = felt(&mut g, i);
        let one = felt(&mut g, 1);
        let k = add(&mut g, iv, one);
        let x_k = index(&mut g, x, k);
        let iv = felt(&mut g, i);
        ys.push(mul(&mut g, iv, x_k));
    }
    let y = vector(&mut g, ys);
    let one_a = felt(&mut g, 1);
    let one_b = felt(&mut g, 1);
    let k = add(&mut g, one_a, one_b);
    let y_k = index(&mut g, y, k);
    let a = main_col(&mut g, 0, 0);
    enforce(&mut g, false, a, y_k);
    assert!(compile(&mut g).0.is_ok());
}

/// `let y = [i * x[a + 1] for i in 0..4]` indexes `x` by the trace column `a`.
#[test]
fn err_computed_indices_in_lc() {
    let mut g = Graph::create();
    let x = constants(&mut g, &[0, 1, 2, 3, 4]);
    let mut ys = Vec::new();
    for i in 0..4u64 {
        let a = main_col(&mut g, 0, 0);
        let one = felt(&mut g, 1);
        let k = add(&mut g, a, one);
        let x_k = index(&mut g, x, k);
        let iv = felt(&mut g, i);
        ys.push(mul(&mut g, iv, x_k));
    }
    let y = vector(&mut g, ys);
    let one_a = felt(&mut g, 1);
    let one_b = felt(&mut g, 1);
    let k = add(&mut g, one_a, one_b);
    let y_k = index(&mut g, y, k);
    let a = main_col(&mut g, 0, 0);
    enforce(&mut g, false, a, y_k);
    expect_diagnostic(&mut g, "the index is not constant during constant propagation");
}

/// `let a = 1 + 8; enf clk.first = a;` and `enf clk' = clk + 1`.
#[test]
fn let_scalar_constant_in_boundary_constraint() {
    let mut g = Graph::create();
    let one = felt(&mut g, 1);
    let eight = felt(&mut g, 8);
    let a = add(&mut g, one, eight);
    let first = boundary_of(&mut g, BoundaryKind::First, 0);
    enforce(&mut g, true, first, a);
    clk_increments(&mut g);
    assert!(compile(&mut g).0.is_ok());
}

/// `let b = [1, 5]; enf clk.first = b[0];` and `enf clk' = clk + 1`.
#[test]
fn let_vector_constant_in_boundary_constraint() {
    let mut g = Graph::create();
    let b = constants(&mut g, &[1, 5]);
    let b0 = at(&mut g, b, 0);
    let first = boundary_of(&mut g, BoundaryKind::First, 0);
    enforce(&mut g, true, first, b0);
    clk_increments(&mut g);
    assert!(compile(&mut g).0.is_ok());
}

/// `let a = 1 + 8; let b = [a, a*a]; enf clk.first = a + b[0];`
/// `let c = [[b[0], b[1]], [clk, 2^2]]; enf clk.last = c[1][1];` and `enf clk' = clk + 1`.
#[test]
fn multi_constraint_nested_let_with_expressions_in_boundary_constraint() {
    let mut g = Graph::create();
    let one = felt(&mut g, 1);
    let eight = felt(&mut g, 8);
    let a = add(&mut g, one, eight);
    let aa = mul(&mut g, a, a);
    let b = vector(&mut g, vec![a, aa]);
    let b0 = at(&mut g, b, 0);
    let rhs = add(&mut g, a, b0);
    let first = boundary_of(&mut g, BoundaryKind::First, 0);
    enforce(&mut g, true, first, rhs);
    let b0 = at(&mut g, b, 0);
    let b1 = at(&mut g, b, 1);
    let row0 = vector(&mut g, vec![b0, b1]);
    let clk = main_col(&mut g, 0, 0);
    let two_a = felt(&mut g, 2);
    let two_b = felt(&mut g, 2);
    let sq = Exp::create(&mut g, two_a, two_b, span());
    let row1 = vector(&mut g, vec![clk, sq]);
    let c = vector(&mut g, vec![row0, row1]);
    let c1 = at(&mut g, c, 1);
    let c11 = at(&mut g, c1, 1);
    let last = boundary_of(&mut g, BoundaryKind::Last, 0);
    enforce(&mut g, true, last, c11);
    clk_increments(&mut g);
    assert!(compile(&mut g).0.is_ok());
}

/// `let a = 1 + 8; enf clk.first = a; enf clk.last = a;` and `enf clk' = clk + 1`.
#[test]
fn let_scalar_constant_in_boundary_constraint_both_domains() {
    let mut g = Graph::create();
    let one = felt(&mut g, 1);
    let eight = felt(&mut g, 8);
    let a = add(&mut g, one, eight);
    let first = boundary_of(&mut g, BoundaryKind::First, 0);
    enforce(&mut g, true, first, a);
    let last = boundary_of(&mut g, BoundaryKind::Last, 0);
    enforce(&mut g, true, last, a);
    clk_increments(&mut g);
    assert!(compile(&mut g).0.is_ok());
}

/// `enf clk.first = 0; enf clk.last = 1;` and, with `let a = 1; let b = [a, a*a];`
/// `let c = [[clk' - clk, clk - a], [1 + 8, 2^2]];`, `enf c[0][0] = 1;`.
#[test]
fn nested_let_with_expressions_in_integrity_constraint() {
    let mut g = Graph::create();
    let first = boundary_of(&mut g, BoundaryKind::First, 0);
    let zero = felt(&mut g, 0);
    enforce(&mut g, true, first, zero);
    let last = boundary_of(&mut g, BoundaryKind::Last, 0);
    let one = felt(&mut g, 1);
    enforce(&mut g, true, last, one);
    let a = felt(&mut g, 1);
    let next = main_col(&mut g, 0, 1);
    let cur = main_col(&mut g, 0, 0);
    let d = Sub::create(&mut g, next, cur, span());
    let cur = main_col(&mut g, 0, 0);
    let e = Sub::create(&mut g, cur, a, span());
    let row0 = vector(&mut g, vec![d, e]);
    let one = felt(&mut g, 1);
    let eight = felt(&mut g, 8);
    let nine = add(&mut g, one, eight);
    let two_a = felt(&mut g, 2);
    let two_b = felt(&mut g, 2);
    let sq = Exp::create(&mut g, two_a, two_b, span());
    let row1 = vector(&mut g, vec![nine, sq]);
    let c = vector(&mut g, vec![row0, row1]);
    let c0 = at(&mut g, c, 0);
    let c00 = at(&mut g, c0, 0);
    let one = felt(&mut g, 1);
    enforce(&mut g, false, c00, one);
    assert!(compile(&mut g).0.is_ok());
}

/// `let a = [[1, 2], [3, 4]]; let b = a[1]; let c = b; let d = [a[0], a[1], b]; let e = d;`
/// `enf clk' = c[0] + e[2][0] + e[0][1];`, with `enf clk.first = 7; enf clk.last = 8;`.
#[test]
fn nested_let_with_vector_access_in_integrity_constraint() {
    let mut g = Graph::create();
    let first = boundary_of(&mut g, BoundaryKind::First, 0);
    let seven = felt(&mut g, 7);
    enforce(&mut g, true, first, seven);
    let last = boundary_of(&mut g, BoundaryKind::Last, 0);
    let eight = felt(&mut g, 8);
    enforce(&mut g, true, last, eight);
    let r0 = constants(&mut g, &[1, 2]);
    let r1 = constants(&mut g, &[3, 4]);
    let a = vector(&mut g, vec![r0, r1]);
    let b = at(&mut g, a, 1);
    let a0 = at(&mut g, a, 0);
    let a1 = at(&mut g, a, 1);
    let d = vector(&mut g, vec![a0, a1, b]);
    let c0 = at(&mut g, b, 0);
    let e2 = at(&mut g, d, 2);
    let e20 = at(&mut g, e2, 0);
    let e0 = at(&mut g, d, 0);
    let e01 = at(&mut g, e0, 1);
    let s = add(&mut g, c0, e20);
    let s = add(&mut g, s, e01);
    let next = main_col(&mut g, 0, 1);
    enforce(&mut g, false, next, s);
    assert!(compile(&mut g).0.is_ok());
}

/// `let a = [1, 2]; enf clk.first = a[2];`
#[test]
fn invalid_vector_variable_access_out_of_bounds() {
    let mut g = Graph::create();
    let a = constants(&mut g, &[1, 2]);
    let a2 = at(&mut g, a, 2);
    let first = boundary_of(&mut g, BoundaryKind::First, 0);
    enforce(&mut g, true, first, a2);
    let last = boundary_of(&mut g, BoundaryKind::Last, 0);
    let one = felt(&mut g, 1);
    enforce(&mut g, true, last, one);
    clk_increments(&mut g);
    expect_diagnostic(&mut g, "attempted to access an index which is out of bounds");
}

/// `let a = [[1, 2, 3], [4, 5, 6]]; enf clk.first = a[1][3];`
#[test]
fn invalid_matrix_column_variable_access_out_of_bounds() {
    let mut g = Graph::create();
    let r0 = constants(&mut g, &[1, 2, 3]);
    let r1 = constants(&mut g, &[4, 5, 6]);
    let a = vector(&mut g, vec![r0, r1]);
    let a1 = at(&mut g, a, 1);
    let a13 = at(&mut g, a1, 3);
    let first = boundary_of(&mut g, BoundaryKind::First, 0);
    enforce(&mut g, true, first, a13);
    let last = boundary_of(&mut g, BoundaryKind::Last, 0);
    let one = felt(&mut g, 1);
    enforce(&mut g, true, last, one);
    clk_increments(&mut g);
    expect_diagnostic(&mut g, "attempted to access an index which is out of bounds");
}

/// `let a = [[1, 2, 3], [4, 5, 6]]; enf clk.last = a[2][0];`
#[test]
fn invalid_matrix_row_variable_access_out_of_bounds() {
    let mut g = Graph::create();
    let r0 = constants(&mut g, &[1, 2, 3]);
    let r1 = constants(&mut g, &[4, 5, 6]);
    let a = vector(&mut g, vec![r0, r1]);
    let first = boundary_of(&mut g, BoundaryKind::First, 0);
    let zero = felt(&mut g, 0);
    enforce(&mut g, true, first, zero);
    let a2 = at(&mut g, a, 2);
    let a20 = at(&mut g, a2, 0);
    let last = boundary_of(&mut g, BoundaryKind::Last, 0);
    enforce(&mut g, true, last, a20);
    clk_increments(&mut g);
    expect_diagnostic(&mut g, "attempted to access an index which is out of bounds");
}

/// With `main: [clk, x[4]]`, `let a = x; enf clk' = clk + a[0];`: `a[0]` is the column `x[0]`.
#[test]
fn trace_binding_access_in_integrity_constraint() {
    let mut g = Graph::create();
    let first = boundary_of(&mut g, BoundaryKind::First, 0);
    let one = felt(&mut g, 1);
    enforce(&mut g, true, first, one);
    let a0 = main_col(&mut g, 1, 0);
    let next = main_col(&mut g, 0, 1);
    let cur = main_col(&mut g, 0, 0);
    let sum = add(&mut g, cur, a0);
    enforce(&mut g, false, next, sum);
    assert!(compile(&mut g).0.is_ok());
}
