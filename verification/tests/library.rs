//! Scenarios of the library's parts: ops and their parents, constant folding, evaluation at
//! random points, the graph's constraint roots and buses, interning and sharing, owner ids and
//! graph statistics, and the builder's states.

use air_mir::builder::{
    make_builder_struct_fields, make_states, sorted_leftmost_layered_gray_codes, TypeHead,
};
use air_mir::eval::{
    eval_random_point, felt_add, felt_exp, felt_mul, felt_new, felt_sub, Eval, RandomInputs,
    MODULUS,
};
use air_mir::graph::Graph;
use air_mir::interner::OpInterner;
use air_mir::ir::{Add, BusOpKind, Call, Child, Enf, Exp, Function, Op, Parameter, Value, Vector};
use air_mir::ir::{Accessor, Bus, Matrix, MirAccessType, Root};
use air_mir::passes::inlining::create_inlining_order;
use air_mir::quad_eval::RandomInputs as QuadInputs;
use air_mir::quad_felt::{quad_const, QuadFelt};
use air_mir::link::{Link, Singleton};
use air_mir::owner_id::{OwnerId, OwnerIdCounter};
use air_mir::passes::constant_propagation::{checked_pow, ConstantPropagation};
use air_mir::passes::cse::Cse;
use air_mir::passes::{get_inner_const, CompileError, DiagnosticsHandler};
use air_mir::utils::{collect_graph_stats, is_shareable_root, GraphStats};
use air_mir::value::{
    BusType, ConstantValue, Identifier, MirType, MirValue, PublicInputAccess, SourceSpan, SpannedMirValue,
    TraceAccess,
};

fn span() -> SourceSpan {
    SourceSpan::default()
}

fn value(g: &mut Graph, v: MirValue) -> Link<Op> {
    Value::create(g, SpannedMirValue { span: span(), value: v }, span())
}

fn felt(g: &mut Graph, c: u64) -> Link<Op> {
    value(g, MirValue::Constant(ConstantValue::Felt(c)))
}

#[test]
fn add_remove_parent_removes_only_target() {
    let lhs: Link<Op> = Link::new(0);
    let rhs: Link<Op> = Link::new(1);
    let mut add = Op::Add(Add {
        parents: Vec::new(),
        lhs,
        rhs,
        _node: Singleton(None),
        _owner: Singleton(None),
        span: span(),
    });
    let owner1 = Link::new(3);
    let owner2 = Link::new(4);
    add.add_parent(owner1);
    add.add_parent(owner2);
    assert_eq!(add.get_parents().len(), 2);

    add.remove_parent(owner1);

    let parents = add.get_parents();
    assert_eq!(parents.len(), 1);
    assert_eq!(parents[0].ptr, owner2.ptr);
}

#[test]
fn constant_propagation_folds_zero_pow_zero_to_one() {
    let mut g = Graph::create();
    let zero = felt(&mut g, 0);
    let pow = Exp::create(&mut g, zero, zero, span());
    let enf = Enf::create(&mut g, pow, span());
    g.insert_integrity_constraints_root(enf);

    let mut diagnostics = DiagnosticsHandler::new();
    let mut pass = ConstantPropagation::new();
    assert!(pass.run(&mut g, &mut diagnostics).is_ok(), "MIR constant propagation should succeed");

    assert_eq!(g.integrity_constraints_roots.len(), 1, "expected exactly one integrity constraint root");
    let root = g.integrity_constraints_roots[0];
    match &g.ops[root.ptr] {
        Op::Enf(e) => match &g.ops[e.expr.ptr] {
            Op::Value(_) => assert_eq!(get_inner_const(&g, &e.expr), Some(1)),
            other => panic!("expected Value after folding, found {:?}", other),
        },
        other => panic!("expected Enf root, found {:?}", other),
    }
}

#[test]
fn constant_propagation_folds_arithmetic() {
    let mut g = Graph::create();
    let two = felt(&mut g, 2);
    let three = felt(&mut g, 3);
    let sum = Add::create(&mut g, two, three, span());
    let enf = Enf::create(&mut g, sum, span());
    g.insert_integrity_constraints_root(enf);
    let mut diagnostics = DiagnosticsHandler::new();
    assert!(ConstantPropagation::new().run(&mut g, &mut diagnostics).is_ok());
    let root = g.integrity_constraints_roots[0];
    let Op::Enf(e) = &g.ops[root.ptr] else { panic!("expected Enf root") };
    assert_eq!(get_inner_const(&g, &e.expr), Some(5));
    assert!(diagnostics.emitted.is_empty());
}

#[test]
fn constant_propagation_folds_nested_expressions() {
    let mut g = Graph::create();
    let two = felt(&mut g, 2);
    let three = felt(&mut g, 3);
    let four = felt(&mut g, 4);
    let one = felt(&mut g, 1);
    let sum = Add::create(&mut g, two, three, span());
    let diff = air_mir::ir::Sub::create(&mut g, four, one, span());
    let prod = air_mir::ir::Mul::create(&mut g, sum, diff, span());
    let pow = Exp::create(&mut g, prod, two, span());
    let enf = Enf::create(&mut g, pow, span());
    g.insert_integrity_constraints_root(enf);
    let mut diagnostics = DiagnosticsHandler::new();
    assert!(ConstantPropagation::new().run(&mut g, &mut diagnostics).is_ok());
    let root = g.integrity_constraints_roots[0];
    let Op::Enf(e) = &g.ops[root.ptr] else { panic!("expected Enf root") };
    assert_eq!(get_inner_const(&g, &e.expr), Some(225));
}

#[test]
fn eval_of_periodic_column_is_a_constant() {
    let mut g = Graph::create();
    let access = air_mir::value::PeriodicColumnAccess {
        name: air_mir::value::QualifiedIdentifier {
            module: Identifier(1),
            item: air_mir::value::NamespacedIdentifier::Binding(Identifier(2)),
        },
        cycle: 4,
    };
    let pc = value(&mut g, MirValue::PeriodicColumn(access));
    let mut inputs = RandomInputs::default();
    let a = eval_random_point(&mut inputs, &g, pc).unwrap().as_ints();
    assert_eq!(a[0], a[1]);
    assert_eq!(a[1], a[2]);
    let mut other = RandomInputs::default();
    assert_eq!(eval_random_point(&mut other, &g, pc).unwrap().as_ints(), a);
}

#[test]
fn eval_of_public_inputs_goes_by_index() {
    let mut g = Graph::create();
    let x = value(&mut g, MirValue::PublicInput(PublicInputAccess { name: Identifier(1), index: 3 }));
    let y = value(&mut g, MirValue::PublicInput(PublicInputAccess { name: Identifier(2), index: 3 }));
    let mut inputs = RandomInputs::default();
    let a = eval_random_point(&mut inputs, &g, x).unwrap();
    let b = eval_random_point(&mut inputs, &g, y).unwrap();
    assert_eq!(a.as_ints(), b.as_ints());
}

#[test]
fn checked_pow_exact_and_overflow() {
    assert_eq!(checked_pow(2, 10), Some(1024));
    assert_eq!(checked_pow(0, 0), Some(1));
    assert_eq!(checked_pow(7, 1), Some(7));
    assert_eq!(checked_pow(2, 63), Some(1u64 << 63));
    assert_eq!(checked_pow(2, 64), None);
    assert_eq!(checked_pow(3, 41), None);
}

#[test]
fn field_arithmetic() {
    let p = MODULUS;
    assert_eq!(felt_new(p + 5), 5);
    assert_eq!(felt_add(p - 1, 2), 1);
    assert_eq!(felt_sub(1, 2), p - 1);
    assert_eq!(felt_mul(p - 1, p - 1), 1);
    assert_eq!(felt_exp(3, 4), 81);
    assert_eq!(felt_exp(0, 0), 1);
    assert_eq!(felt_exp(2, 64), felt_mul(felt_exp(2, 32), felt_exp(2, 32)));
}

#[test]
fn eval_of_constants_is_field_arithmetic() {
    let mut g = Graph::create();
    let two = felt(&mut g, 2);
    let three = felt(&mut g, 3);
    let sum = Add::create(&mut g, two, three, span());
    let pow = Exp::create(&mut g, sum, two, span());
    let mut inputs = RandomInputs::default();
    let r = eval_random_point(&mut inputs, &g, pow).unwrap();
    assert_eq!(r.as_ints(), [25, 25, 25]);
    assert_eq!(Eval::new_const(MODULUS + 1).as_ints(), [1, 1, 1]);
}

#[test]
fn eval_keeps_the_values_drawn_for_a_leaf() {
    let mut g = Graph::create();
    let a = value(&mut g, MirValue::TraceAccess(TraceAccess::new(0, 1, 0)));
    let a_again = value(&mut g, MirValue::TraceAccess(TraceAccess::new(0, 1, 0)));
    let pi = value(&mut g, MirValue::PublicInput(PublicInputAccess::new(Identifier(4), 2)));
    let mut inputs = RandomInputs::default();
    let x = eval_random_point(&mut inputs, &g, a).unwrap();
    let y = eval_random_point(&mut inputs, &g, a_again).unwrap();
    assert_eq!(x, y);
    assert_eq!(inputs.main_trace.len(), 3);
    let p1 = eval_random_point(&mut inputs, &g, pi).unwrap();
    let p2 = eval_random_point(&mut inputs, &g, pi).unwrap();
    assert_eq!(p1, p2);
    assert_eq!(inputs.public_inputs.len(), 1);
    assert!(x.as_ints().iter().all(|v| *v < MODULUS));
    // a - a is zero at every point.
    let d = air_mir::ir::Sub::create(&mut g, a, a_again, span());
    assert_eq!(eval_random_point(&mut inputs, &g, d).unwrap().as_ints(), [0, 0, 0]);
}

#[test]
fn eval_fails_on_unsupported_ops_and_values() {
    let mut g = Graph::create();
    let one = felt(&mut g, 1);
    let v = Vector::create(&mut g, vec![one], span());
    let mut inputs = RandomInputs::default();
    assert_eq!(eval_random_point(&mut inputs, &g, v), Err(CompileError::Failed));
    let aux2 = value(&mut g, MirValue::TraceAccess(TraceAccess::new(2, 0, 0)));
    assert_eq!(eval_random_point(&mut inputs, &g, aux2), Err(CompileError::Failed));
    let null = value(&mut g, MirValue::Null);
    assert_eq!(eval_random_point(&mut inputs, &g, null), Err(CompileError::Failed));
    let param = Parameter::create(&mut g, 0, MirType::Felt, span());
    assert!(eval_random_point(&mut inputs, &g, param).is_ok());
}

#[test]
fn eval_of_a_bus_op_is_a_constant() {
    let mut g = Graph::create();
    let bus = Bus::create(&mut g, Identifier(1), BusType::MultiSet, span());
    let one = felt(&mut g, 1);
    let op = bus.insert(&mut g, &vec![one], one, span());
    let mut inputs = RandomInputs::default();
    let [a, b, c] = eval_random_point(&mut inputs, &g, op).unwrap().as_ints();
    assert_eq!(a, b);
    assert_eq!(b, c);
    let _ = BusOpKind::Insert;
}

#[test]
fn constraint_roots_insert_once_and_remove() {
    let mut g = Graph::create();
    let one = felt(&mut g, 1);
    let enf = Enf::create(&mut g, one, span());
    g.insert_integrity_constraints_root(enf);
    g.insert_integrity_constraints_root(enf);
    assert_eq!(g.integrity_constraints_roots.len(), 1);
    g.insert_boundary_constraints_root(enf);
    g.remove_integrity_constraints_root(enf);
    assert_eq!(g.integrity_constraints_roots.len(), 0);
    assert_eq!(g.boundary_constraints_roots.len(), 1);
    g.remove_boundary_constraints_root(enf);
    assert_eq!(g.boundary_constraints_roots.len(), 0);
}

#[test]
fn bus_boundary_set_once() {
    let mut g = Graph::create();
    let bus = Bus::create(&mut g, Identifier(7), BusType::Logup, span());
    let null = value(&mut g, MirValue::Null);
    assert!(bus.set_first(&mut g, null).is_ok());
    assert_eq!(bus.get_first(&g).ptr, null.ptr);
    let other = value(&mut g, MirValue::Null);
    assert_eq!(bus.set_first(&mut g, other), Err(CompileError::Failed));
    assert_eq!(bus.get_first(&g).ptr, null.ptr);
    assert!(bus.set_last(&mut g, other).is_ok());
    assert_eq!(bus.get_last(&g).ptr, other.ptr);
    assert_eq!(bus.name(&g), Identifier(7));
}

#[test]
fn interning_gives_the_same_op() {
    let mut g = Graph::create();
    let mut interner = OpInterner::new();
    let a = felt(&mut g, 1);
    let b = felt(&mut g, 2);
    let x = interner.intern_add(&mut g, a, b, span());
    let y = interner.intern_add(&mut g, a, b, span());
    let z = interner.intern_mul(&mut g, a, b, span());
    assert_eq!(x.ptr, y.ptr);
    assert_ne!(x.ptr, z.ptr);
}

#[test]
fn cse_shares_equal_subexpressions() {
    let mut g = Graph::create();
    let a = value(&mut g, MirValue::TraceAccess(TraceAccess::new(0, 0, 0)));
    let b = value(&mut g, MirValue::TraceAccess(TraceAccess::new(0, 1, 0)));
    let s1 = Add::create(&mut g, a, b, span());
    let s2 = Add::create(&mut g, a, b, span());
    let e1 = Enf::create(&mut g, s1, span());
    let e2 = Enf::create(&mut g, s2, span());
    g.insert_integrity_constraints_root(e1);
    g.insert_integrity_constraints_root(e2);
    assert!(Cse::new().run(&mut g).is_ok());
    let expr_of = |g: &Graph, l: Link<Op>| match &g.ops[l.ptr] {
        Op::Enf(e) => e.expr.ptr,
        _ => panic!("expected Enf root"),
    };
    let r0 = g.integrity_constraints_roots[0];
    let r1 = g.integrity_constraints_roots[1];
    assert_eq!(expr_of(&g, r0), expr_of(&g, r1));
}

#[test]
fn owner_ids_are_fresh() {
    let mut counter = OwnerIdCounter::new();
    let a = OwnerId::next(&mut counter);
    let b = OwnerId::next(&mut counter);
    assert_ne!(a, b);
    assert!(!a.is_unknown());
    assert!(OwnerId::unknown().is_unknown());
    assert!(OwnerId::default().is_unknown());
}

#[test]
fn graph_stats_count_by_kind() {
    let mut stats = GraphStats::new();
    stats.record_op("Add");
    stats.record_op("Add");
    stats.record_root("Function");
    assert_eq!(stats.total_nodes, 3);
    assert_eq!(stats.total_ops, 2);
    assert_eq!(stats.total_roots, 1);
    let count = |name: &str| stats.counts.iter().find(|(n, _)| *n == name).map(|(_, c)| *c);
    assert_eq!(count("Add"), Some(2));
    assert_eq!(count("Function"), Some(1));
    assert_eq!(count("Mul"), None);
}

#[test]
fn gray_codes_of_four_fields() {
    let t = true;
    let f = false;
    let expected = vec![
        vec![f, f, f, f],
        vec![t, f, f, f],
        vec![f, t, f, f],
        vec![f, f, t, f],
        vec![f, f, f, t],
        vec![t, t, f, f],
        vec![t, f, t, f],
        vec![t, f, f, t],
        vec![f, t, t, f],
        vec![f, t, f, t],
        vec![f, f, t, t],
        vec![t, t, t, f],
        vec![t, t, f, t],
        vec![t, f, t, t],
        vec![f, t, t, t],
        vec![t, t, t, t],
    ];
    assert_eq!(sorted_leftmost_layered_gray_codes(4), expected);
}

#[test]
fn builder_state_machine_of_the_documented_struct() {
    // a: BackLink<Owner>, b: Vec<BackLink<Owner>>, c: i32, d: Link<Op>, e: Vec<Link<Op>>,
    // f: Link<Vec<Link<Op>>>
    let fields = [
        (TypeHead::BackLink, TypeHead::Other),
        (TypeHead::Vec, TypeHead::BackLink),
        (TypeHead::Other, TypeHead::Other),
        (TypeHead::Link, TypeHead::Other),
        (TypeHead::Vec, TypeHead::Link),
        (TypeHead::Link, TypeHead::Vec),
    ];
    let (initial, states, transitions) = make_builder_struct_fields(&fields);
    assert_eq!(initial, vec![true, true, false, false, true, true]);
    assert_eq!(
        states,
        vec![
            vec![true, true, false, false, true, true],
            vec![true, true, true, false, true, true],
            vec![true, true, false, true, true, true],
            vec![true, true, true, true, true, true],
        ]
    );
    assert_eq!(
        transitions,
        vec![
            vec![0, 0, 1, 2, 0, 0],
            vec![1, 1, 1, 3, 1, 1],
            vec![2, 2, 3, 2, 2, 2],
            vec![3, 3, 3, 3, 3, 3],
        ]
    );
}

#[test]
fn gray_codes_by_layer() {
    let codes = sorted_leftmost_layered_gray_codes(2);
    assert_eq!(
        codes,
        vec![vec![false, false], vec![true, false], vec![false, true], vec![true, true]]
    );
    assert_eq!(sorted_leftmost_layered_gray_codes(0), vec![vec![false], vec![true]]);
    assert_eq!(sorted_leftmost_layered_gray_codes(3).len(), 8);
}

#[test]
fn builder_states_start_from_the_initial_state() {
    let states = make_states(&[true, false, false]);
    assert_eq!(states.len(), 4);
    assert_eq!(states[0], vec![true, false, false]);
    assert!(states.iter().all(|s| s[0]));
    assert_eq!(make_states(&[true]), vec![vec![true]]);
}

#[test]
fn extension_arithmetic() {
    let phi = QuadFelt(0, 1);
    // phi^2 = phi - 2
    assert_eq!(phi.mul(phi), QuadFelt(MODULUS - 2, 1));
    assert_eq!(phi.exp(2), QuadFelt(MODULUS - 2, 1));
    assert_eq!(phi.exp(0), QuadFelt(1, 0));
    assert_eq!(QuadFelt(0, 0).exp(5), QuadFelt(0, 0));
    assert_eq!(quad_const(3).exp(4), QuadFelt(81, 0));
    assert_eq!(QuadFelt(1, 2).add(QuadFelt(MODULUS - 1, 3)), QuadFelt(0, 5));
    assert_eq!(QuadFelt(1, 2).sub(QuadFelt(2, 2)), QuadFelt(MODULUS - 1, 0));
    let x = QuadFelt(5, 7);
    assert_eq!(x.exp(5), x.mul(x).mul(x).mul(x).mul(x));
    assert_eq!(x.to_base_elements(), [5, 7]);
}

#[test]
fn extension_eval_of_constants_and_accessors() {
    let mut g = Graph::create();
    let two = felt(&mut g, 2);
    let three = felt(&mut g, 3);
    let sum = Add::create(&mut g, two, three, span());
    let pow = Exp::create(&mut g, sum, two, span());
    let mut inputs = QuadInputs::default();
    assert_eq!(inputs.eval(&g, pow), Ok(QuadFelt(25, 0)));
    // [2, 3][1] and [[2, 3], [5]][0][0]
    let v = Vector::create(&mut g, vec![two, three], span());
    let one = felt(&mut g, 1);
    let zero = felt(&mut g, 0);
    let v1 = Accessor::create(&mut g, v, MirAccessType::Index(one), 0, span());
    assert_eq!(inputs.eval(&g, v1), Ok(QuadFelt(3, 0)));
    let five = felt(&mut g, 5);
    let w = Vector::create(&mut g, vec![five], span());
    let m = Matrix::create(&mut g, vec![v, w], span());
    let m00 = Accessor::create(&mut g, m, MirAccessType::Matrix(zero, zero), 0, span());
    assert_eq!(inputs.eval(&g, m00), Ok(QuadFelt(2, 0)));
    let m11 = Accessor::create(&mut g, m, MirAccessType::Matrix(one, one), 0, span());
    assert_eq!(inputs.eval(&g, m11), Err(CompileError::Failed));
    let v2 = Accessor::create(&mut g, v, MirAccessType::Index(two), 0, span());
    assert_eq!(inputs.eval(&g, v2), Err(CompileError::Failed));
}

#[test]
fn extension_eval_keeps_drawn_elements() {
    let mut g = Graph::create();
    let a = value(&mut g, MirValue::TraceAccess(TraceAccess::new(0, 1, 0)));
    let a_next = value(&mut g, MirValue::TraceAccess(TraceAccess::new(0, 1, 1)));
    let shifted = Accessor::create(&mut g, a, MirAccessType::Default, 1, span());
    let mut inputs = QuadInputs::default();
    let x = inputs.eval(&g, a_next).unwrap();
    let y = inputs.eval(&g, shifted).unwrap();
    assert_eq!(x, y);
    assert_eq!(inputs.main_trace.len(), 4);
    let d = air_mir::ir::Sub::create(&mut g, a_next, shifted, span());
    assert_eq!(inputs.eval(&g, d).unwrap().to_base_elements(), [0, 0]);
    let aux = value(&mut g, MirValue::TraceAccess(TraceAccess::new(1, 0, 0)));
    assert_eq!(inputs.eval(&g, aux), Err(CompileError::Failed));
    let two = felt(&mut g, 2);
    let sq = Exp::create(&mut g, a, two, span());
    assert!(inputs.eval(&g, sq).is_ok());
    let bus = Bus::create(&mut g, Identifier(1), BusType::MultiSet, span());
    let op = bus.insert(&mut g, &vec![two], two, span());
    assert_eq!(inputs.eval(&g, op), Err(CompileError::Failed));
}

#[test]
fn graph_stats_count_reached_nodes() {
    let mut g = Graph::create();
    let a = value(&mut g, MirValue::TraceAccess(TraceAccess::new(0, 0, 0)));
    let one = felt(&mut g, 1);
    let sum = Add::create(&mut g, a, one, span());
    let twice = Add::create(&mut g, sum, sum, span());
    let enf = Enf::create(&mut g, twice, span());
    g.insert_integrity_constraints_root(enf);
    // An op no root reaches is not counted.
    let _unused = felt(&mut g, 7);
    let stats = collect_graph_stats(&g);
    let count = |name: &str| stats.counts.iter().find(|(n, _)| *n == name).map(|(_, c)| *c);
    assert_eq!(count("Enf"), Some(1));
    assert_eq!(count("Add"), Some(2));
    assert_eq!(count("Value"), Some(2));
    assert_eq!(stats.total_ops, 5);
    assert_eq!(stats.total_roots, 0);
    assert_eq!(stats.total_nodes, 5);
}

#[test]
fn shareable_roots() {
    let mut g = Graph::create();
    let p = Parameter::create(&mut g, 0, MirType::Felt, span());
    let one = felt(&mut g, 1);
    let sum = Add::create(&mut g, p, one, span());
    // fn f(x) { x + 1 }: shareable.
    let f = Function::create(&mut g, vec![p], p, vec![sum], span());
    assert!(is_shareable_root(&g, &f));
    // fn h(x) { f(x) * 2 }: calls a shareable function.
    let call_f = Call::create(&mut g, f, vec![p], span());
    let two = felt(&mut g, 2);
    let prod = air_mir::ir::Mul::create(&mut g, call_f, two, span());
    let h = Function::create(&mut g, vec![p], p, vec![prod], span());
    assert!(is_shareable_root(&g, &h));
    // A body holding a constraint is not shareable.
    let enf = Enf::create(&mut g, sum, span());
    let e = Function::create(&mut g, vec![p], p, vec![enf], span());
    assert!(!is_shareable_root(&g, &e));
    // A function calling itself is not shareable.
    let next_root = Link::new(g.roots.len());
    let self_call = Call::create(&mut g, next_root, vec![p], span());
    let rec = Function::create(&mut g, vec![p], p, vec![self_call], span());
    assert!(!is_shareable_root(&g, &rec));
    // A root slot that does not exist is not shareable.
    assert!(!is_shareable_root(&g, &Link::new(99)));
}

#[test]
fn inlining_order_puts_callees_first() {
    // 0 calls 1 and 2, 2 calls 1: the order is 1, 2, 0.
    let r0: Link<Root> = Link::new(0);
    let r1: Link<Root> = Link::new(1);
    let r2: Link<Root> = Link::new(2);
    let graph = vec![(r0, vec![r1, r2]), (r1, vec![]), (r2, vec![r1])];
    let mut diagnostics = DiagnosticsHandler::new();
    let order = create_inlining_order(&mut diagnostics, graph).expect("no cycle");
    let ptrs: Vec<usize> = order.iter().map(|l| l.ptr).collect();
    assert_eq!(ptrs, vec![1, 2, 0]);
    assert!(diagnostics.emitted.is_empty());
}

#[test]
fn inlining_order_reports_circular_dependency() {
    // 0 calls 1, 1 calls 0; 2 stands alone.
    let r0: Link<Root> = Link::new(0);
    let r1: Link<Root> = Link::new(1);
    let r2: Link<Root> = Link::new(2);
    let graph = vec![(r0, vec![r1]), (r1, vec![r0]), (r2, vec![])];
    let mut diagnostics = DiagnosticsHandler::new();
    let result = create_inlining_order(&mut diagnostics, graph);
    assert!(matches!(result, Err(CompileError::Failed)));
    assert_eq!(diagnostics.emitted.len(), 1);
    assert_eq!(diagnostics.emitted[0].kind.message(), "Circular dependency detected");
}

#[test]
fn rejected_ops_draw_nothing() {
    let mut g = Graph::create();
    let null = value(&mut g, MirValue::Null);
    let v = Vector::create(&mut g, vec![null], span());
    let mut inputs = QuadInputs::default();
    let p = Parameter::create(&mut g, 0, MirType::Felt, span());
    assert!(inputs.eval(&g, p).is_ok());
    let before = (inputs.main_trace.clone(), inputs.rand_values.clone(), inputs.public_inputs.len(), inputs.periodic_columns.len());
    assert_eq!(inputs.eval(&g, null), Err(CompileError::Failed));
    assert_eq!(inputs.eval(&g, v), Err(CompileError::Failed));
    let after = (inputs.main_trace.clone(), inputs.rand_values.clone(), inputs.public_inputs.len(), inputs.periodic_columns.len());
    assert_eq!(before, after);
}

#[test]
fn builder_states_number_two_to_the_unset_fields() {
    assert_eq!(make_states(&[true, false, false]).len(), 4);
    assert_eq!(make_states(&[false, false, false, false]).len(), 16);
    assert_eq!(make_states(&[true, true]).len(), 1);
}

#[test]
fn debug_texts_name_the_kind_and_slot() {
    let mut g = Graph::create();
    let two = felt(&mut g, 2);
    let three = felt(&mut g, 3);
    let sum = Add::create(&mut g, two, three, span());
    let text = sum.debug(&g);
    assert!(text.starts_with(&format!("Op::Add@{}(", sum.ptr)));
    assert!(text.ends_with(')'));
    let n = sum.as_node(&mut g);
    let node_text = n.debug(&g);
    assert!(node_text.starts_with("Node::Op(Op::Add@"));
    assert!(node_text.ends_with("))"));
}
