//! Constructors of ops: each puts a new op, with no parents and no views yet, in a new slot.
use vstd::prelude::*;

use crate::graph::{Graph, rank_above, root_children, root_ops_below};
use crate::ir::{Accessor, Add, Boundary, Bus, BusOp, BusOpKind, Call, Enf, Exp, Fold, FoldOperator, For, If, Evaluator, Function, MatchArm, Matrix, MirAccessType, Mul, Op, Parameter, Root, Sub, Value, Vector, access_children, arms_children, op_children};
use crate::link::{Link, Singleton};
use crate::owner_id::OwnerId;
use crate::value::{BoundaryKind, MirType, SourceSpan, SpannedMirValue, same_value};

verus! {

impl Enf {
    /// A new [Enf] op in a new slot of the graph.
    pub fn create(g: &mut Graph, expr: Link<Op>, span: SourceSpan) -> (l: Link<Op>)
        requires
            old(g).wf(),
            expr.ptr < old(g).ops.len(),
        ensures
            final(g).wf(),
            l.ptr == old(g).ops.len(),
            final(g).ops.len() == old(g).ops.len() + 1,
            forall|i: int| 0 <= i < old(g).ops.len() ==> final(g).ops@[i] == old(g).ops@[i],
            final(g).ops@[l.ptr as int] matches Op::Enf(x) && x.expr == expr && x.span == span && x.parents@.len() == 0 && x._node.0 is None && x._owner.0 is None,
            final(g).rank@.drop_last() == old(g).rank@,
            final(g).rank@[l.ptr as int] == rank_above(old(g).rank@, op_children(final(g).ops@[l.ptr as int])),
            !final(g).op_dropped@[l.ptr as int],
            final(g).op_dropped@.drop_last() == old(g).op_dropped@,
            final(g).roots == old(g).roots,
            final(g).root_dropped == old(g).root_dropped,
            final(g).nodes == old(g).nodes,
            final(g).owners == old(g).owners,
            final(g).buses == old(g).buses,
            final(g).boundary_constraints_roots == old(g).boundary_constraints_roots,
            final(g).integrity_constraints_roots == old(g).integrity_constraints_roots,
            final(g).functions == old(g).functions,
            final(g).evaluators == old(g).evaluators,
            final(g).bus_table == old(g).bus_table,
    {
        let op = Op::Enf(Enf { parents: Vec::new(), expr, _node: Singleton(None), _owner: Singleton(None), span });
        proof {
            assert forall|j: int| 0 <= j < op_children(op).len() implies (#[trigger] op_children(op)[j]).ptr < old(g).ops.len() by {}
        }
        let l = g.insert_op(op);
        assert(final(g).rank@.drop_last() =~= old(g).rank@);
        assert(g.op_dropped@.drop_last() =~= old(g).op_dropped@);
        l
    }
}

impl Boundary {
    /// A new [Boundary] op in a new slot of the graph.
    pub fn create(g: &mut Graph, kind: BoundaryKind, expr: Link<Op>, span: SourceSpan) -> (l: Link<Op>)
        requires
            old(g).wf(),
            expr.ptr < old(g).ops.len(),
        ensures
            final(g).wf(),
            l.ptr == old(g).ops.len(),
            final(g).ops.len() == old(g).ops.len() + 1,
            forall|i: int| 0 <= i < old(g).ops.len() ==> final(g).ops@[i] == old(g).ops@[i],
            final(g).ops@[l.ptr as int] matches Op::Boundary(x) && x.kind == kind && x.expr == expr && x.span == span && x.parents@.len() == 0 && x._node.0 is None && x._owner.0 is None,
            final(g).rank@.drop_last() == old(g).rank@,
            final(g).rank@[l.ptr as int] == rank_above(old(g).rank@, op_children(final(g).ops@[l.ptr as int])),
            !final(g).op_dropped@[l.ptr as int],
            final(g).op_dropped@.drop_last() == old(g).op_dropped@,
            final(g).roots == old(g).roots,
            final(g).root_dropped == old(g).root_dropped,
            final(g).nodes == old(g).nodes,
            final(g).owners == old(g).owners,
            final(g).buses == old(g).buses,
            final(g).boundary_constraints_roots == old(g).boundary_constraints_roots,
            final(g).integrity_constraints_roots == old(g).integrity_constraints_roots,
            final(g).functions == old(g).functions,
            final(g).evaluators == old(g).evaluators,
            final(g).bus_table == old(g).bus_table,
    {
        let op = Op::Boundary(Boundary { parents: Vec::new(), kind, expr, _node: Singleton(None), _owner: Singleton(None), span });
        proof {
            assert forall|j: int| 0 <= j < op_children(op).len() implies (#[trigger] op_children(op)[j]).ptr < old(g).ops.len() by {}
        }
        let l = g.insert_op(op);
        assert(final(g).rank@.drop_last() =~= old(g).rank@);
        assert(g.op_dropped@.drop_last() =~= old(g).op_dropped@);
        l
    }
}

impl Add {
    /// A new [Add] op in a new slot of the graph.
    pub fn create(g: &mut Graph, lhs: Link<Op>, rhs: Link<Op>, span: SourceSpan) -> (l: Link<Op>)
        requires
            old(g).wf(),
            lhs.ptr < old(g).ops.len(),
            rhs.ptr < old(g).ops.len(),
        ensures
            final(g).wf(),
            l.ptr == old(g).ops.len(),
            final(g).ops.len() == old(g).ops.len() + 1,
            forall|i: int| 0 <= i < old(g).ops.len() ==> final(g).ops@[i] == old(g).ops@[i],
            final(g).ops@[l.ptr as int] matches Op::Add(x) && x.lhs == lhs && x.rhs == rhs && x.span == span && x.parents@.len() == 0 && x._node.0 is None && x._owner.0 is None,
            final(g).rank@.drop_last() == old(g).rank@,
            final(g).rank@[l.ptr as int] == rank_above(old(g).rank@, op_children(final(g).ops@[l.ptr as int])),
            !final(g).op_dropped@[l.ptr as int],
            final(g).op_dropped@.drop_last() == old(g).op_dropped@,
            final(g).roots == old(g).roots,
            final(g).root_dropped == old(g).root_dropped,
            final(g).nodes == old(g).nodes,
            final(g).owners == old(g).owners,
            final(g).buses == old(g).buses,
            final(g).boundary_constraints_roots == old(g).boundary_constraints_roots,
            final(g).integrity_constraints_roots == old(g).integrity_constraints_roots,
            final(g).functions == old(g).functions,
            final(g).evaluators == old(g).evaluators,
            final(g).bus_table == old(g).bus_table,
    {
        let op = Op::Add(Add { parents: Vec::new(), lhs, rhs, _node: Singleton(None), _owner: Singleton(None), span });
        proof {
            assert forall|j: int| 0 <= j < op_children(op).len() implies (#[trigger] op_children(op)[j]).ptr < old(g).ops.len() by {}
        }
        let l = g.insert_op(op);
        assert(final(g).rank@.drop_last() =~= old(g).rank@);
        assert(g.op_dropped@.drop_last() =~= old(g).op_dropped@);
        l
    }
}

impl Sub {
    /// A new [Sub] op in a new slot of the graph.
    pub fn create(g: &mut Graph, lhs: Link<Op>, rhs: Link<Op>, span: SourceSpan) -> (l: Link<Op>)
        requires
            old(g).wf(),
            lhs.ptr < old(g).ops.len(),
            rhs.ptr < old(g).ops.len(),
        ensures
            final(g).wf(),
            l.ptr == old(g).ops.len(),
            final(g).ops.len() == old(g).ops.len() + 1,
            forall|i: int| 0 <= i < old(g).ops.len() ==> final(g).ops@[i] == old(g).ops@[i],
            final(g).ops@[l.ptr as int] matches Op::Sub(x) && x.lhs == lhs && x.rhs == rhs && x.span == span && x.parents@.len() == 0 && x._node.0 is None && x._owner.0 is None,
            final(g).rank@.drop_last() == old(g).rank@,
            final(g).rank@[l.ptr as int] == rank_above(old(g).rank@, op_children(final(g).ops@[l.ptr as int])),
            !final(g).op_dropped@[l.ptr as int],
            final(g).op_dropped@.drop_last() == old(g).op_dropped@,
            final(g).roots == old(g).roots,
            final(g).root_dropped == old(g).root_dropped,
            final(g).nodes == old(g).nodes,
            final(g).owners == old(g).owners,
            final(g).buses == old(g).buses,
            final(g).boundary_constraints_roots == old(g).boundary_constraints_roots,
            final(g).integrity_constraints_roots == old(g).integrity_constraints_roots,
            final(g).functions == old(g).functions,
            final(g).evaluators == old(g).evaluators,
            final(g).bus_table == old(g).bus_table,
    {
        let op = Op::Sub(Sub { parents: Vec::new(), lhs, rhs, _node: Singleton(None), _owner: Singleton(None), span });
        proof {
            assert forall|j: int| 0 <= j < op_children(op).len() implies (#[trigger] op_children(op)[j]).ptr < old(g).ops.len() by {}
        }
        let l = g.insert_op(op);
        assert(final(g).rank@.drop_last() =~= old(g).rank@);
        assert(g.op_dropped@.drop_last() =~= old(g).op_dropped@);
        l
    }
}

impl Mul {
    /// A new [Mul] op in a new slot of the graph.
    pub fn create(g: &mut Graph, lhs: Link<Op>, rhs: Link<Op>, span: SourceSpan) -> (l: Link<Op>)
        requires
            old(g).wf(),
            lhs.ptr < old(g).ops.len(),
            rhs.ptr < old(g).ops.len(),
        ensures
            final(g).wf(),
            l.ptr == old(g).ops.len(),
            final(g).ops.len() == old(g).ops.len() + 1,
            forall|i: int| 0 <= i < old(g).ops.len() ==> final(g).ops@[i] == old(g).ops@[i],
            final(g).ops@[l.ptr as int] matches Op::Mul(x) && x.lhs == lhs && x.rhs == rhs && x.span == span && x.parents@.len() == 0 && x._node.0 is None && x._owner.0 is None,
            final(g).rank@.drop_last() == old(g).rank@,
            final(g).rank@[l.ptr as int] == rank_above(old(g).rank@, op_children(final(g).ops@[l.ptr as int])),
            !final(g).op_dropped@[l.ptr as int],
            final(g).op_dropped@.drop_last() == old(g).op_dropped@,
            final(g).roots == old(g).roots,
            final(g).root_dropped == old(g).root_dropped,
            final(g).nodes == old(g).nodes,
            final(g).owners == old(g).owners,
            final(g).buses == old(g).buses,
            final(g).boundary_constraints_roots == old(g).boundary_constraints_roots,
            final(g).integrity_constraints_roots == old(g).integrity_constraints_roots,
            final(g).functions == old(g).functions,
            final(g).evaluators == old(g).evaluators,
            final(g).bus_table == old(g).bus_table,
    {
        let op = Op::Mul(Mul { parents: Vec::new(), lhs, rhs, _node: Singleton(None), _owner: Singleton(None), span });
        proof {
            assert forall|j: int| 0 <= j < op_children(op).len() implies (#[trigger] op_children(op)[j]).ptr < old(g).ops.len() by {}
        }
        let l = g.insert_op(op);
        assert(final(g).rank@.drop_last() =~= old(g).rank@);
        assert(g.op_dropped@.drop_last() =~= old(g).op_dropped@);
        l
    }
}

impl Exp {
    /// A new [Exp] op in a new slot of the graph.
    pub fn create(g: &mut Graph, lhs: Link<Op>, rhs: Link<Op>, span: SourceSpan) -> (l: Link<Op>)
        requires
            old(g).wf(),
            lhs.ptr < old(g).ops.len(),
            rhs.ptr < old(g).ops.len(),
        ensures
            final(g).wf(),
            l.ptr == old(g).ops.len(),
            final(g).ops.len() == old(g).ops.len() + 1,
            forall|i: int| 0 <= i < old(g).ops.len() ==> final(g).ops@[i] == old(g).ops@[i],
            final(g).ops@[l.ptr as int] matches Op::Exp(x) && x.lhs == lhs && x.rhs == rhs && x.span == span && x.parents@.len() == 0 && x._node.0 is None && x._owner.0 is None,
            final(g).rank@.drop_last() == old(g).rank@,
            final(g).rank@[l.ptr as int] == rank_above(old(g).rank@, op_children(final(g).ops@[l.ptr as int])),
            !final(g).op_dropped@[l.ptr as int],
            final(g).op_dropped@.drop_last() == old(g).op_dropped@,
            final(g).roots == old(g).roots,
            final(g).root_dropped == old(g).root_dropped,
            final(g).nodes == old(g).nodes,
            final(g).owners == old(g).owners,
            final(g).buses == old(g).buses,
            final(g).boundary_constraints_roots == old(g).boundary_constraints_roots,
            final(g).integrity_constraints_roots == old(g).integrity_constraints_roots,
            final(g).functions == old(g).functions,
            final(g).evaluators == old(g).evaluators,
            final(g).bus_table == old(g).bus_table,
    {
        let op = Op::Exp(Exp { parents: Vec::new(), lhs, rhs, _node: Singleton(None), _owner: Singleton(None), span });
        proof {
            assert forall|j: int| 0 <= j < op_children(op).len() implies (#[trigger] op_children(op)[j]).ptr < old(g).ops.len() by {}
        }
        let l = g.insert_op(op);
        assert(final(g).rank@.drop_last() =~= old(g).rank@);
        assert(g.op_dropped@.drop_last() =~= old(g).op_dropped@);
        l
    }
}

impl If {
    /// A new [If] op in a new slot of the graph.
    pub fn create(g: &mut Graph, match_arms: Vec<MatchArm>, span: SourceSpan) -> (l: Link<Op>)
        requires
            old(g).wf(),
            forall|j: int| 0 <= j < arms_children(match_arms@).len() ==> (#[trigger] arms_children(match_arms@)[j]).ptr < old(g).ops.len(),
        ensures
            final(g).wf(),
            l.ptr == old(g).ops.len(),
            final(g).ops.len() == old(g).ops.len() + 1,
            forall|i: int| 0 <= i < old(g).ops.len() ==> final(g).ops@[i] == old(g).ops@[i],
            final(g).ops@[l.ptr as int] matches Op::If(x) && x.match_arms@ == match_arms@ && x.span == span && x.parents@.len() == 0 && x._node.0 is None && x._owner.0 is None,
            final(g).rank@.drop_last() == old(g).rank@,
            final(g).rank@[l.ptr as int] == rank_above(old(g).rank@, op_children(final(g).ops@[l.ptr as int])),
            !final(g).op_dropped@[l.ptr as int],
            final(g).op_dropped@.drop_last() == old(g).op_dropped@,
            final(g).roots == old(g).roots,
            final(g).root_dropped == old(g).root_dropped,
            final(g).nodes == old(g).nodes,
            final(g).owners == old(g).owners,
            final(g).buses == old(g).buses,
            final(g).boundary_constraints_roots == old(g).boundary_constraints_roots,
            final(g).integrity_constraints_roots == old(g).integrity_constraints_roots,
            final(g).functions == old(g).functions,
            final(g).evaluators == old(g).evaluators,
            final(g).bus_table == old(g).bus_table,
    {
        let op = Op::If(If { parents: Vec::new(), match_arms, _node: Singleton(None), _owner: Singleton(None), span });
        proof {
            assert forall|j: int| 0 <= j < op_children(op).len() implies (#[trigger] op_children(op)[j]).ptr < old(g).ops.len() by {}
        }
        let l = g.insert_op(op);
        assert(final(g).rank@.drop_last() =~= old(g).rank@);
        assert(g.op_dropped@.drop_last() =~= old(g).op_dropped@);
        l
    }
}

impl For {
    /// A new [For] op in a new slot of the graph.
    pub fn create(g: &mut Graph, iterators: Vec<Link<Op>>, expr: Link<Op>, selector: Option<Link<Op>>, span: SourceSpan) -> (l: Link<Op>)
        requires
            old(g).wf(),
            forall|j: int| 0 <= j < iterators.len() ==> (#[trigger] iterators@[j]).ptr < old(g).ops.len(),
            expr.ptr < old(g).ops.len(),
            selector matches Some(s) ==> s.ptr < old(g).ops.len(),
        ensures
            final(g).wf(),
            l.ptr == old(g).ops.len(),
            final(g).ops.len() == old(g).ops.len() + 1,
            forall|i: int| 0 <= i < old(g).ops.len() ==> final(g).ops@[i] == old(g).ops@[i],
            final(g).ops@[l.ptr as int] matches Op::For(x) && x.iterators@ == iterators@ && x.expr == expr && x.selector == selector && x.owner_id == OwnerId(0) && x.span == span && x.parents@.len() == 0 && x._node.0 is None && x._owner.0 is None,
            final(g).rank@.drop_last() == old(g).rank@,
            final(g).rank@[l.ptr as int] == rank_above(old(g).rank@, op_children(final(g).ops@[l.ptr as int])),
            !final(g).op_dropped@[l.ptr as int],
            final(g).op_dropped@.drop_last() == old(g).op_dropped@,
            final(g).roots == old(g).roots,
            final(g).root_dropped == old(g).root_dropped,
            final(g).nodes == old(g).nodes,
            final(g).owners == old(g).owners,
            final(g).buses == old(g).buses,
            final(g).boundary_constraints_roots == old(g).boundary_constraints_roots,
            final(g).integrity_constraints_roots == old(g).integrity_constraints_roots,
            final(g).functions == old(g).functions,
            final(g).evaluators == old(g).evaluators,
            final(g).bus_table == old(g).bus_table,
    {
        let op = Op::For(For { parents: Vec::new(), iterators, expr, selector, owner_id: OwnerId(0), _node: Singleton(None), _owner: Singleton(None), span });
        proof {
            assert forall|j: int| 0 <= j < op_children(op).len() implies (#[trigger] op_children(op)[j]).ptr < old(g).ops.len() by {}
        }
        let l = g.insert_op(op);
        assert(final(g).rank@.drop_last() =~= old(g).rank@);
        assert(g.op_dropped@.drop_last() =~= old(g).op_dropped@);
        l
    }
}

impl Call {
    /// A new [Call] op in a new slot of the graph.
    pub fn create(g: &mut Graph, function: Link<Root>, arguments: Vec<Link<Op>>, span: SourceSpan) -> (l: Link<Op>)
        requires
            old(g).wf(),
            forall|j: int| 0 <= j < arguments.len() ==> (#[trigger] arguments@[j]).ptr < old(g).ops.len(),
        ensures
            final(g).wf(),
            l.ptr == old(g).ops.len(),
            final(g).ops.len() == old(g).ops.len() + 1,
            forall|i: int| 0 <= i < old(g).ops.len() ==> final(g).ops@[i] == old(g).ops@[i],
            final(g).ops@[l.ptr as int] matches Op::Call(x) && x.function == function && x.arguments@ == arguments@ && x.span == span && x.parents@.len() == 0 && x._node.0 is None && x._owner.0 is None,
            final(g).rank@.drop_last() == old(g).rank@,
            final(g).rank@[l.ptr as int] == rank_above(old(g).rank@, op_children(final(g).ops@[l.ptr as int])),
            !final(g).op_dropped@[l.ptr as int],
            final(g).op_dropped@.drop_last() == old(g).op_dropped@,
            final(g).roots == old(g).roots,
            final(g).root_dropped == old(g).root_dropped,
            final(g).nodes == old(g).nodes,
            final(g).owners == old(g).owners,
            final(g).buses == old(g).buses,
            final(g).boundary_constraints_roots == old(g).boundary_constraints_roots,
            final(g).integrity_constraints_roots == old(g).integrity_constraints_roots,
            final(g).functions == old(g).functions,
            final(g).evaluators == old(g).evaluators,
            final(g).bus_table == old(g).bus_table,
    {
        let op = Op::Call(Call { parents: Vec::new(), function, arguments, _node: Singleton(None), _owner: Singleton(None), span });
        proof {
            assert forall|j: int| 0 <= j < op_children(op).len() implies (#[trigger] op_children(op)[j]).ptr < old(g).ops.len() by {}
        }
        let l = g.insert_op(op);
        assert(final(g).rank@.drop_last() =~= old(g).rank@);
        assert(g.op_dropped@.drop_last() =~= old(g).op_dropped@);
        l
    }
}

impl Fold {
    /// A new [Fold] op in a new slot of the graph.
    pub fn create(g: &mut Graph, iterator: Link<Op>, operator: FoldOperator, initial_value: Link<Op>, span: SourceSpan) -> (l: Link<Op>)
        requires
            old(g).wf(),
            iterator.ptr < old(g).ops.len(),
            initial_value.ptr < old(g).ops.len(),
        ensures
            final(g).wf(),
            l.ptr == old(g).ops.len(),
            final(g).ops.len() == old(g).ops.len() + 1,
            forall|i: int| 0 <= i < old(g).ops.len() ==> final(g).ops@[i] == old(g).ops@[i],
            final(g).ops@[l.ptr as int] matches Op::Fold(x) && x.iterator == iterator && x.operator == operator && x.initial_value == initial_value && x.span == span && x.parents@.len() == 0 && x._node.0 is None && x._owner.0 is None,
            final(g).rank@.drop_last() == old(g).rank@,
            final(g).rank@[l.ptr as int] == rank_above(old(g).rank@, op_children(final(g).ops@[l.ptr as int])),
            !final(g).op_dropped@[l.ptr as int],
            final(g).op_dropped@.drop_last() == old(g).op_dropped@,
            final(g).roots == old(g).roots,
            final(g).root_dropped == old(g).root_dropped,
            final(g).nodes == old(g).nodes,
            final(g).owners == old(g).owners,
            final(g).buses == old(g).buses,
            final(g).boundary_constraints_roots == old(g).boundary_constraints_roots,
            final(g).integrity_constraints_roots == old(g).integrity_constraints_roots,
            final(g).functions == old(g).functions,
            final(g).evaluators == old(g).evaluators,
            final(g).bus_table == old(g).bus_table,
    {
        let op = Op::Fold(Fold { parents: Vec::new(), iterator, operator, initial_value, _node: Singleton(None), _owner: Singleton(None), span });
        proof {
            assert forall|j: int| 0 <= j < op_children(op).len() implies (#[trigger] op_children(op)[j]).ptr < old(g).ops.len() by {}
        }
        let l = g.insert_op(op);
        assert(final(g).rank@.drop_last() =~= old(g).rank@);
        assert(g.op_dropped@.drop_last() =~= old(g).op_dropped@);
        l
    }
}

impl Vector {
    /// A new [Vector] op in a new slot of the graph.
    pub fn create(g: &mut Graph, elements: Vec<Link<Op>>, span: SourceSpan) -> (l: Link<Op>)
        requires
            old(g).wf(),
            forall|j: int| 0 <= j < elements.len() ==> (#[trigger] elements@[j]).ptr < old(g).ops.len(),
        ensures
            final(g).wf(),
            l.ptr == old(g).ops.len(),
            final(g).ops.len() == old(g).ops.len() + 1,
            forall|i: int| 0 <= i < old(g).ops.len() ==> final(g).ops@[i] == old(g).ops@[i],
            final(g).ops@[l.ptr as int] matches Op::Vector(x) && x.elements@ == elements@ && x.span == span && x.parents@.len() == 0 && x._node.0 is None && x._owner.0 is None,
            final(g).rank@.drop_last() == old(g).rank@,
            final(g).rank@[l.ptr as int] == rank_above(old(g).rank@, op_children(final(g).ops@[l.ptr as int])),
            !final(g).op_dropped@[l.ptr as int],
            final(g).op_dropped@.drop_last() == old(g).op_dropped@,
            final(g).roots == old(g).roots,
            final(g).root_dropped == old(g).root_dropped,
            final(g).nodes == old(g).nodes,
            final(g).owners == old(g).owners,
            final(g).buses == old(g).buses,
            final(g).boundary_constraints_roots == old(g).boundary_constraints_roots,
            final(g).integrity_constraints_roots == old(g).integrity_constraints_roots,
            final(g).functions == old(g).functions,
            final(g).evaluators == old(g).evaluators,
            final(g).bus_table == old(g).bus_table,
    {
        let op = Op::Vector(Vector { parents: Vec::new(), elements, _node: Singleton(None), _owner: Singleton(None), span });
        proof {
            assert forall|j: int| 0 <= j < op_children(op).len() implies (#[trigger] op_children(op)[j]).ptr < old(g).ops.len() by {}
        }
        let l = g.insert_op(op);
        assert(final(g).rank@.drop_last() =~= old(g).rank@);
        assert(g.op_dropped@.drop_last() =~= old(g).op_dropped@);
        l
    }
}

impl Matrix {
    /// A new [Matrix] op in a new slot of the graph.
    pub fn create(g: &mut Graph, elements: Vec<Link<Op>>, span: SourceSpan) -> (l: Link<Op>)
        requires
            old(g).wf(),
            forall|j: int| 0 <= j < elements.len() ==> (#[trigger] elements@[j]).ptr < old(g).ops.len(),
        ensures
            final(g).wf(),
            l.ptr == old(g).ops.len(),
            final(g).ops.len() == old(g).ops.len() + 1,
            forall|i: int| 0 <= i < old(g).ops.len() ==> final(g).ops@[i] == old(g).ops@[i],
            final(g).ops@[l.ptr as int] matches Op::Matrix(x) && x.elements@ == elements@ && x.span == span && x.parents@.len() == 0 && x._node.0 is None && x._owner.0 is None,
            final(g).rank@.drop_last() == old(g).rank@,
            final(g).rank@[l.ptr as int] == rank_above(old(g).rank@, op_children(final(g).ops@[l.ptr as int])),
            !final(g).op_dropped@[l.ptr as int],
            final(g).op_dropped@.drop_last() == old(g).op_dropped@,
            final(g).roots == old(g).roots,
            final(g).root_dropped == old(g).root_dropped,
            final(g).nodes == old(g).nodes,
            final(g).owners == old(g).owners,
            final(g).buses == old(g).buses,
            final(g).boundary_constraints_roots == old(g).boundary_constraints_roots,
            final(g).integrity_constraints_roots == old(g).integrity_constraints_roots,
            final(g).functions == old(g).functions,
            final(g).evaluators == old(g).evaluators,
            final(g).bus_table == old(g).bus_table,
    {
        let op = Op::Matrix(Matrix { parents: Vec::new(), elements, _node: Singleton(None), _owner: Singleton(None), span });
        proof {
            assert forall|j: int| 0 <= j < op_children(op).len() implies (#[trigger] op_children(op)[j]).ptr < old(g).ops.len() by {}
        }
        let l = g.insert_op(op);
        assert(final(g).rank@.drop_last() =~= old(g).rank@);
        assert(g.op_dropped@.drop_last() =~= old(g).op_dropped@);
        l
    }
}

impl Accessor {
    /// A new [Accessor] op in a new slot of the graph.
    pub fn create(g: &mut Graph, indexable: Link<Op>, access_type: MirAccessType, offset: usize, span: SourceSpan) -> (l: Link<Op>)
        requires
            old(g).wf(),
            indexable.ptr < old(g).ops.len(),
            forall|j: int| 0 <= j < access_children(access_type).len() ==> (#[trigger] access_children(access_type)[j]).ptr < old(g).ops.len(),
        ensures
            final(g).wf(),
            l.ptr == old(g).ops.len(),
            final(g).ops.len() == old(g).ops.len() + 1,
            forall|i: int| 0 <= i < old(g).ops.len() ==> final(g).ops@[i] == old(g).ops@[i],
            final(g).ops@[l.ptr as int] matches Op::Accessor(x) && x.indexable == indexable && x.access_type == access_type && x.offset == offset && x.span == span && x.parents@.len() == 0 && x._node.0 is None && x._owner.0 is None,
            final(g).rank@.drop_last() == old(g).rank@,
            final(g).rank@[l.ptr as int] == rank_above(old(g).rank@, op_children(final(g).ops@[l.ptr as int])),
            !final(g).op_dropped@[l.ptr as int],
            final(g).op_dropped@.drop_last() == old(g).op_dropped@,
            final(g).roots == old(g).roots,
            final(g).root_dropped == old(g).root_dropped,
            final(g).nodes == old(g).nodes,
            final(g).owners == old(g).owners,
            final(g).buses == old(g).buses,
            final(g).boundary_constraints_roots == old(g).boundary_constraints_roots,
            final(g).integrity_constraints_roots == old(g).integrity_constraints_roots,
            final(g).functions == old(g).functions,
            final(g).evaluators == old(g).evaluators,
            final(g).bus_table == old(g).bus_table,
    {
        let op = Op::Accessor(Accessor { parents: Vec::new(), indexable, access_type, offset, _node: Singleton(None), _owner: Singleton(None), span });
        proof {
            assert forall|j: int| 0 <= j < op_children(op).len() implies (#[trigger] op_children(op)[j]).ptr < old(g).ops.len() by {}
        }
        let l = g.insert_op(op);
        assert(final(g).rank@.drop_last() =~= old(g).rank@);
        assert(g.op_dropped@.drop_last() =~= old(g).op_dropped@);
        l
    }
}

impl BusOp {
    /// A new [BusOp] op in a new slot of the graph.
    pub fn create(g: &mut Graph, bus: Link<Bus>, kind: BusOpKind, args: Vec<Link<Op>>, latch: Link<Op>, span: SourceSpan) -> (l: Link<Op>)
        requires
            old(g).wf(),
            forall|j: int| 0 <= j < args.len() ==> (#[trigger] args@[j]).ptr < old(g).ops.len(),
            latch.ptr < old(g).ops.len(),
        ensures
            final(g).wf(),
            l.ptr == old(g).ops.len(),
            final(g).ops.len() == old(g).ops.len() + 1,
            forall|i: int| 0 <= i < old(g).ops.len() ==> final(g).ops@[i] == old(g).ops@[i],
            final(g).ops@[l.ptr as int] matches Op::BusOp(x) && x.bus == bus && x.kind == kind && x.args@ == args@ && x.latch == latch && x.span == span && x.parents@.len() == 0 && x._node.0 is None && x._owner.0 is None,
            final(g).rank@.drop_last() == old(g).rank@,
            final(g).rank@[l.ptr as int] == rank_above(old(g).rank@, op_children(final(g).ops@[l.ptr as int])),
            !final(g).op_dropped@[l.ptr as int],
            final(g).op_dropped@.drop_last() == old(g).op_dropped@,
            final(g).roots == old(g).roots,
            final(g).root_dropped == old(g).root_dropped,
            final(g).nodes == old(g).nodes,
            final(g).owners == old(g).owners,
            final(g).buses == old(g).buses,
            final(g).boundary_constraints_roots == old(g).boundary_constraints_roots,
            final(g).integrity_constraints_roots == old(g).integrity_constraints_roots,
            final(g).functions == old(g).functions,
            final(g).evaluators == old(g).evaluators,
            final(g).bus_table == old(g).bus_table,
    {
        let op = Op::BusOp(BusOp { parents: Vec::new(), bus, kind, args, latch, _node: Singleton(None), _owner: Singleton(None), span });
        proof {
            assert forall|j: int| 0 <= j < op_children(op).len() implies (#[trigger] op_children(op)[j]).ptr < old(g).ops.len() by {}
        }
        let l = g.insert_op(op);
        assert(final(g).rank@.drop_last() =~= old(g).rank@);
        assert(g.op_dropped@.drop_last() =~= old(g).op_dropped@);
        l
    }
}

impl Parameter {
    /// A new [Parameter] op in a new slot of the graph.
    pub fn create(g: &mut Graph, position: usize, ty: MirType, span: SourceSpan) -> (l: Link<Op>)
        requires
            old(g).wf(),
        ensures
            final(g).wf(),
            l.ptr == old(g).ops.len(),
            final(g).ops.len() == old(g).ops.len() + 1,
            forall|i: int| 0 <= i < old(g).ops.len() ==> final(g).ops@[i] == old(g).ops@[i],
            final(g).ops@[l.ptr as int] matches Op::Parameter(x) && x.position == position && x.ty == ty && x.owner_id == OwnerId(0) && !x.is_for_output && x.span == span && x.parents@.len() == 0 && x._node.0 is None,
            final(g).rank@.drop_last() == old(g).rank@,
            final(g).rank@[l.ptr as int] == rank_above(old(g).rank@, op_children(final(g).ops@[l.ptr as int])),
            !final(g).op_dropped@[l.ptr as int],
            final(g).op_dropped@.drop_last() == old(g).op_dropped@,
            final(g).roots == old(g).roots,
            final(g).root_dropped == old(g).root_dropped,
            final(g).nodes == old(g).nodes,
            final(g).owners == old(g).owners,
            final(g).buses == old(g).buses,
            final(g).boundary_constraints_roots == old(g).boundary_constraints_roots,
            final(g).integrity_constraints_roots == old(g).integrity_constraints_roots,
            final(g).functions == old(g).functions,
            final(g).evaluators == old(g).evaluators,
            final(g).bus_table == old(g).bus_table,
    {
        let op = Op::Parameter(Parameter { parents: Vec::new(), owner_id: OwnerId(0), position, ty, is_for_output: false, _node: Singleton(None), span });
        proof {
            assert forall|j: int| 0 <= j < op_children(op).len() implies (#[trigger] op_children(op)[j]).ptr < old(g).ops.len() by {}
        }
        let l = g.insert_op(op);
        assert(final(g).rank@.drop_last() =~= old(g).rank@);
        assert(g.op_dropped@.drop_last() =~= old(g).op_dropped@);
        l
    }
}

impl Parameter {
    /// Refer the parameter to the owner with the stable id `owner_id`.
    pub fn set_owner_id(&mut self, owner_id: OwnerId)
        ensures
            *final(self) == (Parameter { owner_id, ..*old(self) }),
    {
        self.owner_id = owner_id;
    }

    /// Mark the parameter as a placeholder for an output element of a `for`, or not.
    pub fn set_for_output(&mut self, is_for_output: bool)
        ensures
            *final(self) == (Parameter { is_for_output, ..*old(self) }),
    {
        self.is_for_output = is_for_output;
    }
}

impl Value {
    /// A new [Value] op in a new slot of the graph.
    pub fn create(g: &mut Graph, value: SpannedMirValue, span: SourceSpan) -> (l: Link<Op>)
        requires
            old(g).wf(),
        ensures
            final(g).wf(),
            l.ptr == old(g).ops.len(),
            final(g).ops.len() == old(g).ops.len() + 1,
            forall|i: int| 0 <= i < old(g).ops.len() ==> final(g).ops@[i] == old(g).ops@[i],
            final(g).ops@[l.ptr as int] matches Op::Value(x) && x.value.span == value.span && same_value(x.value.value, value.value) && x.span == span && x.parents@.len() == 0 && x._node.0 is None,
            final(g).rank@.drop_last() == old(g).rank@,
            final(g).rank@[l.ptr as int] == rank_above(old(g).rank@, op_children(final(g).ops@[l.ptr as int])),
            !final(g).op_dropped@[l.ptr as int],
            final(g).op_dropped@.drop_last() == old(g).op_dropped@,
            final(g).roots == old(g).roots,
            final(g).root_dropped == old(g).root_dropped,
            final(g).nodes == old(g).nodes,
            final(g).owners == old(g).owners,
            final(g).buses == old(g).buses,
            final(g).boundary_constraints_roots == old(g).boundary_constraints_roots,
            final(g).integrity_constraints_roots == old(g).integrity_constraints_roots,
            final(g).functions == old(g).functions,
            final(g).evaluators == old(g).evaluators,
            final(g).bus_table == old(g).bus_table,
    {
        let op = Op::Value(Value { parents: Vec::new(), value, _node: Singleton(None), span });
        proof {
            assert forall|j: int| 0 <= j < op_children(op).len() implies (#[trigger] op_children(op)[j]).ptr < old(g).ops.len() by {}
        }
        let l = g.insert_op(op);
        assert(final(g).rank@.drop_last() =~= old(g).rank@);
        assert(g.op_dropped@.drop_last() =~= old(g).op_dropped@);
        l
    }
}

impl Function {
    /// A new function root, with its parameters, return value and body, in a new slot.
    pub fn create(
        g: &mut Graph,
        parameters: Vec<Link<Op>>,
        return_type: Link<Op>,
        body: Vec<Link<Op>>,
        span: SourceSpan,
    ) -> (l: Link<Root>)
        requires
            old(g).wf(),
            forall|j: int| 0 <= j < parameters.len() ==> (#[trigger] parameters@[j]).ptr < old(g).ops.len(),
            return_type.ptr < old(g).ops.len(),
            forall|j: int| 0 <= j < body.len() ==> (#[trigger] body@[j]).ptr < old(g).ops.len(),
        ensures
            final(g).wf(),
            l.ptr == old(g).roots.len(),
            final(g).roots.len() == old(g).roots.len() + 1,
            forall|i: int| 0 <= i < old(g).roots.len() ==> final(g).roots@[i] == old(g).roots@[i],
            final(g).roots@[l.ptr as int] matches Root::Function(f) && f.parameters@ == parameters@ && f.return_type
                == return_type && f.body@ == body@ && f.span == span,
            !final(g).root_dropped@[l.ptr as int],
            final(g).ops == old(g).ops,
            final(g).op_dropped == old(g).op_dropped,
            final(g).boundary_constraints_roots == old(g).boundary_constraints_roots,
            final(g).integrity_constraints_roots == old(g).integrity_constraints_roots,
    {
        let r = Root::Function(
            Function { parameters, return_type, body, _node: Singleton(None), _owner: Singleton(None), span },
        );
        g.insert_root(r)
    }
}

impl Evaluator {
    /// A new evaluator root, with its parameters (by trace segment) and body, in a new slot.
    pub fn create(g: &mut Graph, parameters: Vec<Vec<Link<Op>>>, body: Vec<Link<Op>>, span: SourceSpan) -> (l: Link<Root>)
        requires
            old(g).wf(),
            forall|s: int, j: int|
                0 <= s < parameters.len() && 0 <= j < parameters@[s].len() ==> (#[trigger] parameters@[s]@[j]).ptr
                    < old(g).ops.len(),
            forall|j: int| 0 <= j < body.len() ==> (#[trigger] body@[j]).ptr < old(g).ops.len(),
        ensures
            final(g).wf(),
            l.ptr == old(g).roots.len(),
            final(g).roots.len() == old(g).roots.len() + 1,
            forall|i: int| 0 <= i < old(g).roots.len() ==> final(g).roots@[i] == old(g).roots@[i],
            final(g).roots@[l.ptr as int] matches Root::Evaluator(e) && e.parameters@ == parameters@ && e.body@
                == body@ && e.span == span,
            !final(g).root_dropped@[l.ptr as int],
            final(g).ops == old(g).ops,
            final(g).op_dropped == old(g).op_dropped,
            final(g).boundary_constraints_roots == old(g).boundary_constraints_roots,
            final(g).integrity_constraints_roots == old(g).integrity_constraints_roots,
    {
        let r = Root::Evaluator(Evaluator { parameters, body, _node: Singleton(None), _owner: Singleton(None), span });
        g.insert_root(r)
    }
}

} // verus!
