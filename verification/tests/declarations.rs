use air_mir::graph::Graph;
use air_mir::ir::{Accessor, Add, Bus, Call, Enf, Evaluator, Function, MirAccessType, Op, Parameter, Root, Value, Vector};
use air_mir::owner_id::OwnerId;
use air_mir::passes::should_share_argument;
use air_mir::utils::{
    extract_all_roots, extract_boundary_roots, extract_bus_roots, extract_evaluator_roots, extract_function_roots,
    extract_integrity_roots,
};
use air_mir::link::{BackLink, Link};
use air_mir::passes::CompileError;
use air_mir::value::{
    BusType, ConstantValue, Identifier, MirType, MirValue, NamespacedIdentifier, QualifiedIdentifier, SourceSpan,
    SpannedMirValue,
};

fn span() -> SourceSpan {
    SourceSpan::default()
}

fn felt(g: &mut Graph, c: u64) -> Link<Op> {
    Value::create(g, SpannedMirValue { span: span(), value: MirValue::Constant(ConstantValue::Felt(c)) }, span())
}

fn function_name(module: u32, item: u32) -> QualifiedIdentifier {
    QualifiedIdentifier { module: Identifier(module), item: NamespacedIdentifier::Function(Identifier(item)) }
}

fn function(g: &mut Graph, c: u64) -> Link<Root> {
    let ret = felt(g, c);
    Function::create(g, vec![], ret, vec![ret], span())
}

#[test]
fn functions_are_found_by_name_in_name_order() {
    let mut g = Graph::create();
    let f1 = function(&mut g, 1);
    let f2 = function(&mut g, 2);
    assert!(g.insert_function(function_name(0, 10), f1).is_ok());
    assert!(g.insert_function(function_name(0, 5), f2).is_ok());
    assert_eq!(g.get_function_root(&function_name(0, 10)).map(|l| l.ptr), Some(f1.ptr));
    assert_eq!(g.get_function_root(&function_name(0, 5)).map(|l| l.ptr), Some(f2.ptr));
    assert!(g.get_function_root(&function_name(1, 5)).is_none());
    assert!(g.get_function(&function_name(0, 10)).is_some());
    assert!(g.get_function(&function_name(0, 11)).is_none());
    let nodes: Vec<usize> = g.get_function_nodes().iter().map(|l| l.ptr).collect();
    assert_eq!(nodes, vec![f2.ptr, f1.ptr]);
}

#[test]
fn function_declared_twice_is_a_conflict_and_takes_the_entry() {
    let mut g = Graph::create();
    let f1 = function(&mut g, 1);
    let f2 = function(&mut g, 2);
    assert!(g.insert_function(function_name(0, 1), f1).is_ok());
    assert!(matches!(g.insert_function(function_name(0, 1), f2), Err(CompileError::Failed)));
    assert_eq!(g.get_function_root(&function_name(0, 1)).map(|l| l.ptr), Some(f2.ptr));
    assert_eq!(g.get_function_nodes().len(), 1);
}

#[test]
fn only_function_roots_are_declared_as_functions() {
    let mut g = Graph::create();
    let body = felt(&mut g, 3);
    let e = Evaluator::create(&mut g, vec![vec![]], vec![body], span());
    assert!(matches!(g.insert_function(function_name(0, 1), e), Err(CompileError::Failed)));
    assert!(g.get_function_root(&function_name(0, 1)).is_none());
    assert!(g.insert_evaluator(function_name(0, 1), e).is_ok());
    assert_eq!(g.get_evaluator_root(&function_name(0, 1)).map(|l| l.ptr), Some(e.ptr));
    assert!(g.get_evaluator(&function_name(0, 1)).is_some());
    assert_eq!(g.get_evaluator_nodes().len(), 1);
    let f = function(&mut g, 4);
    assert!(matches!(g.insert_evaluator(function_name(0, 2), f), Err(CompileError::Failed)));
}

#[test]
fn buses_are_found_by_name_and_declared_once() {
    let mut g = Graph::create();
    let p = Bus::create(&mut g, Identifier(1), BusType::MultiSet, span());
    let q = Bus::create(&mut g, Identifier(2), BusType::Logup, span());
    let p_name = QualifiedIdentifier { module: Identifier(0), item: NamespacedIdentifier::Binding(Identifier(1)) };
    let q_name = QualifiedIdentifier { module: Identifier(0), item: NamespacedIdentifier::Binding(Identifier(2)) };
    assert!(g.insert_bus(q_name, q).is_ok());
    assert!(g.insert_bus(p_name, p).is_ok());
    assert_eq!(g.get_bus_link(&p_name).map(|l| l.ptr), Some(p.ptr));
    assert!(matches!(g.get_bus(&q_name).map(|b| b.bus_type), Some(BusType::Logup)));
    let nodes: Vec<usize> = g.get_bus_nodes().iter().map(|l| l.ptr).collect();
    assert_eq!(nodes, vec![p.ptr, q.ptr]);
    assert!(matches!(g.insert_bus(p_name, q), Err(CompileError::Failed)));
    assert_eq!(g.get_bus_link(&p_name).map(|l| l.ptr), Some(q.ptr));
    assert!(g.get_bus(&function_name(0, 1)).is_none());
}

#[test]
fn large_vectors_and_calls_returning_them_are_shared() {
    let mut g = Graph::create();
    let one = felt(&mut g, 1);
    let small = Vector::create(&mut g, vec![one; 3], span());
    let large = Vector::create(&mut g, vec![one; 65], span());
    let bound = Vector::create(&mut g, vec![one; 64], span());
    assert!(!should_share_argument(&g, &small));
    assert!(!should_share_argument(&g, &bound));
    assert!(should_share_argument(&g, &large));
    let into_large = Accessor::create(&mut g, large, MirAccessType::Default, 0, span());
    let into_small = Accessor::create(&mut g, small, MirAccessType::Default, 0, span());
    assert!(should_share_argument(&g, &into_large));
    assert!(!should_share_argument(&g, &into_small));
    let ret_large = Parameter::create(&mut g, 0, MirType::Matrix(65, 2), span());
    let f_large = Function::create(&mut g, vec![], ret_large, vec![], span());
    let ret_felt = Parameter::create(&mut g, 0, MirType::Felt, span());
    let f_felt = Function::create(&mut g, vec![], ret_felt, vec![], span());
    let call_large = Call::create(&mut g, f_large, vec![], span());
    let call_felt = Call::create(&mut g, f_felt, vec![], span());
    assert!(should_share_argument(&g, &call_large));
    assert!(!should_share_argument(&g, &call_felt));
    assert!(!should_share_argument(&g, &one));
}

#[test]
fn parameter_setters_change_only_their_field() {
    let mut g = Graph::create();
    let p = Parameter::create(&mut g, 2, MirType::Vector(3), span());
    let Op::Parameter(param) = &mut g.ops[p.ptr] else { panic!("expected a parameter") };
    param.set_owner_id(OwnerId(7));
    param.set_for_output(true);
    assert_eq!(param.owner_id, OwnerId(7));
    assert!(param.is_for_output);
    assert_eq!(param.position, 2);
    assert_eq!(param.ty, MirType::Vector(3));
}

#[test]
fn extracted_roots_view_each_start_in_order() {
    let mut g = Graph::create();
    let one = felt(&mut g, 1);
    let two = felt(&mut g, 2);
    let b = Enf::create(&mut g, one, span());
    g.insert_boundary_constraints_root(b);
    let i = Enf::create(&mut g, two, span());
    g.insert_integrity_constraints_root(i);
    let bus = Bus::create(&mut g, Identifier(1), BusType::MultiSet, span());
    let bus_name = QualifiedIdentifier { module: Identifier(0), item: NamespacedIdentifier::Binding(Identifier(1)) };
    assert!(g.insert_bus(bus_name, bus).is_ok());
    let f = function(&mut g, 3);
    assert!(g.insert_function(function_name(0, 1), f).is_ok());

    let boundary = extract_boundary_roots(&mut g);
    assert_eq!(boundary.len(), 1);
    assert_eq!(boundary[0].as_op(&g).map(|l| l.ptr), Some(b.ptr));
    let integrity = extract_integrity_roots(&mut g);
    assert_eq!(integrity.len(), 1);
    assert_eq!(integrity[0].as_op(&g).map(|l| l.ptr), Some(i.ptr));
    let functions = extract_function_roots(&mut g);
    assert_eq!(functions.len(), 1);
    assert_eq!(functions[0].as_root(&g).map(|l| l.ptr), Some(f.ptr));
    assert!(extract_evaluator_roots(&mut g).is_empty());
    let columns = g.buses[bus.ptr].columns.len();
    let latches = g.buses[bus.ptr].latches.len();
    assert_eq!(extract_bus_roots(&mut g).len(), columns + latches);

    let all = extract_all_roots(&mut g);
    assert_eq!(all.len(), 3 + columns + latches);
    assert_eq!(all[0].as_op(&g).map(|l| l.ptr), Some(b.ptr));
    assert_eq!(all[1].as_op(&g).map(|l| l.ptr), Some(i.ptr));
    assert_eq!(all[all.len() - 1].as_root(&g).map(|l| l.ptr), Some(f.ptr));
    // A second extraction gives the same nodes back.
    let again = extract_all_roots(&mut g);
    let first: Vec<usize> = all.iter().map(|n| n.ptr).collect();
    let second: Vec<usize> = again.iter().map(|n| n.ptr).collect();
    assert_eq!(first, second);
}

#[test]
fn declarations_can_be_modified_in_place() {
    let mut g = Graph::create();
    let f = function(&mut g, 1);
    let name = function_name(0, 1);
    assert!(g.insert_function(name, f).is_ok());
    let extra = felt(&mut g, 9);
    g.get_function_mut(&name).expect("declared").body.push(extra);
    assert_eq!(g.get_function(&name).map(|x| x.body.len()), Some(2));
    assert!(f.as_function(&g).is_some());
    assert!(f.as_evaluator(&g).is_none());
    f.as_function_mut(&mut g).expect("a function").span = span();
    assert!(g.get_evaluator_mut(&name).is_none());

    let bus = Bus::create(&mut g, Identifier(1), BusType::MultiSet, span());
    let bus_name = QualifiedIdentifier { module: Identifier(0), item: NamespacedIdentifier::Binding(Identifier(1)) };
    assert!(g.insert_bus(bus_name, bus).is_ok());
    g.get_bus_mut(&bus_name).expect("declared").bus_type = BusType::Logup;
    assert!(matches!(g.get_bus(&bus_name).map(|b| b.bus_type), Some(BusType::Logup)));
}

#[test]
fn bus_names_are_set_once() {
    let mut g = Graph::create();
    let bus = Bus::create(&mut g, Identifier(1), BusType::MultiSet, span());
    g.buses[bus.ptr].set_name_unchecked(Identifier(4));
    assert_eq!(bus.name(&g), Identifier(4));
    let mut fresh = Bus {
        name: None,
        bus_type: BusType::Logup,
        columns: vec![],
        latches: vec![],
        first: g.buses[bus.ptr].first,
        last: g.buses[bus.ptr].last,
        span: span(),
    };
    fresh.set_name(Identifier(5));
    assert_eq!(fresh.name, Some(Identifier(5)));
    let back = BackLink::<Bus>::new(bus.ptr);
    assert_eq!(back.get_name(&g), Identifier(4));
}

#[test]
fn node_views_are_equal_when_they_name_the_same_op() {
    let mut g = Graph::create();
    let a = felt(&mut g, 1);
    let b = felt(&mut g, 2);
    let na = a.as_node(&mut g);
    let nb = b.as_node(&mut g);
    let na_again = a.as_node(&mut g);
    assert!(g.nodes[na.ptr].eq(&g, &g.nodes[na_again.ptr]));
    assert!(!g.nodes[na.ptr].eq(&g, &g.nodes[nb.ptr]));
    let f = function(&mut g, 3);
    let nf = f.as_node(&mut g);
    assert!(!g.nodes[nf.ptr].eq(&g, &g.nodes[na.ptr]));
    let of = f.as_owner(&mut g);
    assert!(g.owners[of.ptr].eq(&g, &g.owners[of.ptr]));
    let sum = Add::create(&mut g, a, b, span());
    let os = sum.as_owner(&mut g).expect("an add owns its operands");
    assert!(!g.owners[os.ptr].eq(&g, &g.owners[of.ptr]));
}

#[test]
fn cse_canonicalizes_named_function_bodies() {
    let mut g = Graph::create();
    let a = Value::create(&mut g, SpannedMirValue { span: span(), value: MirValue::Constant(ConstantValue::Felt(7)) }, span());
    let b = felt(&mut g, 9);
    let s1 = Add::create(&mut g, a, b, span());
    let s2 = Add::create(&mut g, a, b, span());
    let f = Function::create(&mut g, vec![], s2, vec![s1, s2], span());
    // A function that no table names is left as it is.
    let u1 = Add::create(&mut g, a, b, span());
    let u2 = Add::create(&mut g, a, b, span());
    let unnamed = Function::create(&mut g, vec![], u1, vec![u1, u2], span());
    assert!(g.insert_function(function_name(0, 1), f).is_ok());
    assert!(air_mir::passes::cse::Cse::new().run(&mut g).is_ok());
    match &g.roots[f.ptr] {
        Root::Function(x) => {
            assert_eq!(x.body.len(), 2);
            assert_eq!(x.body[0].ptr, x.body[1].ptr);
            assert_eq!(x.return_type.ptr, x.body[0].ptr);
        },
        other => panic!("expected a function, found {:?}", other),
    }
    match &g.roots[unnamed.ptr] {
        Root::Function(x) => {
            assert_eq!(x.body[0].ptr, u1.ptr);
            assert_eq!(x.body[1].ptr, u2.ptr);
        },
        other => panic!("expected a function, found {:?}", other),
    }
}
