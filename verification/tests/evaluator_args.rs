use air_mir::graph::Graph;
use air_mir::ir::{Accessor, Matrix, MirAccessType, Op, Parameter, Value, Vector};
use air_mir::passes::index_projection::project_return_expr;
use air_mir::link::Link;
use air_mir::passes::inlining::{
    check_evaluator_argument_sizes, extract_accessor, process_evaluator_arg_children,
    unpack_evaluator_arguments,
};
use air_mir::passes::{CompileError, DiagnosticsHandler};
use air_mir::value::{
    ConstantValue, MirType, MirValue, SourceSpan, SpannedMirValue, TraceAccess, TraceAccessBinding,
};

fn span() -> SourceSpan {
    SourceSpan::default()
}

fn value(g: &mut Graph, v: MirValue) -> Link<Op> {
    Value::create(g, SpannedMirValue { span: span(), value: v }, span())
}

fn felt(g: &mut Graph, c: u64) -> Link<Op> {
    value(g, MirValue::Constant(ConstantValue::Felt(c)))
}

fn binding(g: &mut Graph, offset: usize, size: usize) -> Link<Op> {
    value(g, MirValue::TraceAccessBinding(TraceAccessBinding { segment: 0, offset, size }))
}

fn binding_of(g: &Graph, l: Link<Op>) -> Option<TraceAccessBinding> {
    match &g.ops[l.ptr] {
        Op::Value(v) => match &v.value.value {
            MirValue::TraceAccessBinding(t) => Some(*t),
            _ => None,
        },
        _ => None,
    }
}

#[test]
fn accessors_resolve_to_the_element_they_name() {
    let mut g = Graph::create();
    let a = felt(&mut g, 10);
    let b = felt(&mut g, 11);
    let v = Vector::create(&mut g, vec![a, b], span());
    let one = felt(&mut g, 1);
    let whole = Accessor::create(&mut g, v, MirAccessType::Default, 0, span());
    let second = Accessor::create(&mut g, whole, MirAccessType::Index(one), 0, span());
    assert_eq!(extract_accessor(&g, second).ptr, b.ptr);
    assert_eq!(extract_accessor(&g, whole).ptr, v.ptr);
    assert_eq!(extract_accessor(&g, a).ptr, a.ptr);
}

#[test]
fn a_multi_column_binding_unpacks_to_one_binding_per_column() {
    let mut g = Graph::create();
    let wide = binding(&mut g, 4, 3);
    let narrow = binding(&mut g, 9, 1);
    let access = value(&mut g, MirValue::TraceAccess(TraceAccess { segment: 0, column: 2, row_offset: 0 }));
    let n0 = g.ops.len();
    let (size, args) = process_evaluator_arg_children(&mut g, &vec![wide, narrow, access]);
    assert_eq!(size, 5);
    assert_eq!(args.len(), 5);
    for (k, arg) in args.iter().take(3).enumerate() {
        assert!(arg.ptr >= n0);
        assert_eq!(binding_of(&g, *arg), Some(TraceAccessBinding { segment: 0, offset: 4 + k, size: 1 }));
    }
    assert_eq!(args[3].ptr, narrow.ptr);
    assert_eq!(args[4].ptr, access.ptr);
}

#[test]
fn parameters_and_vectors_count_their_length() {
    let mut g = Graph::create();
    let p = Parameter::create(&mut g, 0, MirType::Vector(4), span());
    let q = Parameter::create(&mut g, 1, MirType::Felt, span());
    let c = felt(&mut g, 7);
    let slice = Vector::create(&mut g, vec![q, c], span());
    let (size, args) = process_evaluator_arg_children(&mut g, &vec![p, slice]);
    assert_eq!(size, 6);
    let ptrs: Vec<usize> = args.iter().map(|l| l.ptr).collect();
    assert_eq!(ptrs, vec![p.ptr, q.ptr, c.ptr]);
}

#[test]
fn evaluator_arguments_unpack_segment_after_segment() {
    let mut g = Graph::create();
    let main = binding(&mut g, 0, 2);
    let aux = binding(&mut g, 5, 1);
    let main_segment = Vector::create(&mut g, vec![main], span());
    let aux_segment = Vector::create(&mut g, vec![aux], span());
    let args = unpack_evaluator_arguments(&mut g, &vec![main_segment, aux_segment]);
    assert_eq!(args.len(), 3);
    assert_eq!(binding_of(&g, args[0]), Some(TraceAccessBinding { segment: 0, offset: 0, size: 1 }));
    assert_eq!(binding_of(&g, args[1]), Some(TraceAccessBinding { segment: 0, offset: 1, size: 1 }));
    assert_eq!(args[2].ptr, aux.ptr);
}

#[test]
fn argument_sizes_are_checked_per_trace_segment() {
    let mut g = Graph::create();
    let main = binding(&mut g, 0, 2);
    let main_segment = Vector::create(&mut g, vec![main], span());
    let x = Parameter::create(&mut g, 0, MirType::Felt, span());
    let y = Parameter::create(&mut g, 1, MirType::Felt, span());
    let mut diagnostics = DiagnosticsHandler::new();
    assert!(check_evaluator_argument_sizes(&g, &vec![main_segment], vec![vec![x, y]], &mut diagnostics).is_ok());
    assert!(diagnostics.emitted.is_empty());
    let result = check_evaluator_argument_sizes(&g, &vec![main_segment], vec![vec![x]], &mut diagnostics);
    assert!(matches!(result, Err(CompileError::Failed)));
    assert_eq!(diagnostics.emitted.len(), 1);
    assert_eq!(diagnostics.emitted[0].kind.message(), "argument count mismatch");
}

#[test]
fn unpacked_arguments_match_the_checked_size() {
    let mut g = Graph::create();
    let wide = binding(&mut g, 0, 2);
    let q = Parameter::create(&mut g, 1, MirType::Felt, span());
    let access = value(&mut g, MirValue::TraceAccess(TraceAccess { segment: 0, column: 7, row_offset: 1 }));
    let (size, args) = process_evaluator_arg_children(&mut g, &vec![wide, q, access]);
    assert_eq!(size, 4);
    assert_eq!(args.len(), size);
    // A vector parameter counts its length but stays one argument.
    let v = Parameter::create(&mut g, 2, MirType::Vector(3), span());
    let (size, args) = process_evaluator_arg_children(&mut g, &vec![v]);
    assert_eq!(size, 3);
    assert_eq!(args.len(), 1);
}

#[test]
fn constant_accesses_project_onto_returned_vectors_and_matrices() {
    let mut g = Graph::create();
    let a = felt(&mut g, 10);
    let b = felt(&mut g, 11);
    let c = felt(&mut g, 12);
    let v = Vector::create(&mut g, vec![a, b, c], span());
    let two = felt(&mut g, 2);
    let five = felt(&mut g, 5);
    let zero = felt(&mut g, 0);
    let one = felt(&mut g, 1);
    let p = Parameter::create(&mut g, 0, MirType::Felt, span());
    assert_eq!(project_return_expr(&g, &v, &MirAccessType::Index(two)).map(|l| l.ptr), Some(c.ptr));
    assert!(project_return_expr(&g, &v, &MirAccessType::Index(five)).is_none());
    assert!(project_return_expr(&g, &v, &MirAccessType::Index(p)).is_none());
    assert!(project_return_expr(&g, &v, &MirAccessType::Default).is_none());
    let row0 = Vector::create(&mut g, vec![a, b], span());
    let row1 = Vector::create(&mut g, vec![c, a], span());
    let m = Matrix::create(&mut g, vec![row0, row1], span());
    assert_eq!(project_return_expr(&g, &m, &MirAccessType::Matrix(one, zero)).map(|l| l.ptr), Some(c.ptr));
    assert!(project_return_expr(&g, &m, &MirAccessType::Matrix(two, zero)).is_none());
    assert!(project_return_expr(&g, &v, &MirAccessType::Matrix(zero, zero)).is_none());
}
