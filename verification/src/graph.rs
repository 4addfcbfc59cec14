//! The MIR graph: arenas of ops, roots, nodes and owners, and the views between them.
use vstd::prelude::*;

use crate::ir::{Bus, Node, Op, Owner, Root, op_children};
use crate::link::{BackLink, Link, Singleton};
use crate::registry::keys_sorted;
use crate::value::{QualifiedIdentifier, SourceSpan, same_value};

verus! {

/// The MIR graph.
///
/// Ops, roots, node views and owner views live in arenas and name each other by slot index.
/// A slot of `ops` or `roots` may be dropped (its `*_dropped` flag set); weak handles on it are
/// then stale. `rank` orders the ops so that every child ranks below its parent: the ops form no
/// cycle.
pub struct Graph {
    pub ops: Vec<Op>,
    pub op_dropped: Vec<bool>,
    pub roots: Vec<Root>,
    pub root_dropped: Vec<bool>,
    pub nodes: Vec<Node>,
    pub owners: Vec<Owner>,
    pub buses: Vec<Bus>,
    pub boundary_constraints_roots: Vec<Link<Op>>,
    pub integrity_constraints_roots: Vec<Link<Op>>,
    pub functions: Vec<(QualifiedIdentifier, Link<Root>)>,
    pub evaluators: Vec<(QualifiedIdentifier, Link<Root>)>,
    pub bus_table: Vec<(QualifiedIdentifier, Link<Bus>)>,
    pub rank: Ghost<Seq<nat>>,
}

/// The node view kept by an op, if it has made one.
pub open spec fn op_node(op: Op) -> Option<Link<Node>> {
    match op {
        Op::Enf(x) => x._node.0,
        Op::Boundary(x) => x._node.0,
        Op::Add(x) => x._node.0,
        Op::Sub(x) => x._node.0,
        Op::Mul(x) => x._node.0,
        Op::Exp(x) => x._node.0,
        Op::If(x) => x._node.0,
        Op::For(x) => x._node.0,
        Op::Call(x) => x._node.0,
        Op::Fold(x) => x._node.0,
        Op::Vector(x) => x._node.0,
        Op::Matrix(x) => x._node.0,
        Op::Accessor(x) => x._node.0,
        Op::BusOp(x) => x._node.0,
        Op::Parameter(x) => x._node.0,
        Op::Value(x) => x._node.0,
        Op::Nil(_) => None,
    }
}

/// The owner view kept by an op, if it has made one.
pub open spec fn op_owner(op: Op) -> Option<Link<Owner>> {
    match op {
        Op::Enf(x) => x._owner.0,
        Op::Boundary(x) => x._owner.0,
        Op::Add(x) => x._owner.0,
        Op::Sub(x) => x._owner.0,
        Op::Mul(x) => x._owner.0,
        Op::Exp(x) => x._owner.0,
        Op::If(x) => x._owner.0,
        Op::For(x) => x._owner.0,
        Op::Call(x) => x._owner.0,
        Op::Fold(x) => x._owner.0,
        Op::Vector(x) => x._owner.0,
        Op::Matrix(x) => x._owner.0,
        Op::Accessor(x) => x._owner.0,
        Op::BusOp(x) => x._owner.0,
        _ => None,
    }
}

/// Can this op own ops (is it an owner)?
pub open spec fn is_owner_op(op: Op) -> bool {
    match op {
        Op::Parameter(_) | Op::Value(_) | Op::Nil(_) => false,
        _ => true,
    }
}

/// The node view kept by a root, if it has made one.
pub open spec fn root_node(r: Root) -> Option<Link<Node>> {
    match r {
        Root::Function(x) => x._node.0,
        Root::Evaluator(x) => x._node.0,
        Root::Nil(_) => None,
    }
}

/// The owner view kept by a root, if it has made one.
pub open spec fn root_owner(r: Root) -> Option<Link<Owner>> {
    match r {
        Root::Function(x) => x._owner.0,
        Root::Evaluator(x) => x._owner.0,
        Root::Nil(_) => None,
    }
}

/// The children of a root.
pub open spec fn root_children(r: Root) -> Seq<Link<Op>> {
    match r {
        Root::Function(x) => x.body@,
        Root::Evaluator(x) => x.body@,
        Root::Nil(_) => seq![],
    }
}

/// The op slot a node names, if it names an op.
pub open spec fn node_op_ptr(n: Node) -> Option<usize> {
    match n {
        Node::Function(_) => None,
        Node::Evaluator(_) => None,
        Node::Enf(b) => Some(b.ptr),
        Node::Boundary(b) => Some(b.ptr),
        Node::Add(b) => Some(b.ptr),
        Node::Sub(b) => Some(b.ptr),
        Node::Mul(b) => Some(b.ptr),
        Node::Exp(b) => Some(b.ptr),
        Node::If(b) => Some(b.ptr),
        Node::For(b) => Some(b.ptr),
        Node::Call(b) => Some(b.ptr),
        Node::Fold(b) => Some(b.ptr),
        Node::Vector(b) => Some(b.ptr),
        Node::Matrix(b) => Some(b.ptr),
        Node::Accessor(b) => Some(b.ptr),
        Node::BusOp(b) => Some(b.ptr),
        Node::Parameter(b) => Some(b.ptr),
        Node::Value(b) => Some(b.ptr),
        Node::Nil(_) => None,
    }
}

/// The root slot a node names, if it names a root.
pub open spec fn node_root_ptr(n: Node) -> Option<usize> {
    match n {
        Node::Function(b) => Some(b.ptr),
        Node::Evaluator(b) => Some(b.ptr),
        _ => None,
    }
}

/// The op slot an owner names, if it names an op.
pub open spec fn owner_op_ptr(o: Owner) -> Option<usize> {
    match o {
        Owner::Function(_) => None,
        Owner::Evaluator(_) => None,
        Owner::Accessor(b) => Some(b.ptr),
        Owner::BusOp(b) => Some(b.ptr),
        Owner::Boundary(b) => Some(b.ptr),
        Owner::Vector(b) => Some(b.ptr),
        Owner::Matrix(b) => Some(b.ptr),
        Owner::Call(b) => Some(b.ptr),
        Owner::Fold(b) => Some(b.ptr),
        Owner::Add(b) => Some(b.ptr),
        Owner::Sub(b) => Some(b.ptr),
        Owner::Mul(b) => Some(b.ptr),
        Owner::Exp(b) => Some(b.ptr),
        Owner::Enf(b) => Some(b.ptr),
        Owner::For(b) => Some(b.ptr),
        Owner::If(b) => Some(b.ptr),
        Owner::Nil(_) => None,
    }
}

/// The root slot an owner names, if it names a root.
pub open spec fn owner_root_ptr(o: Owner) -> Option<usize> {
    match o {
        Owner::Function(b) => Some(b.ptr),
        Owner::Evaluator(b) => Some(b.ptr),
        _ => None,
    }
}

/// The node variant corresponds to the op variant.
pub open spec fn node_matches_op(n: Node, op: Op) -> bool {
    match (n, op) {
        (Node::Enf(_), Op::Enf(_)) => true,
        (Node::Boundary(_), Op::Boundary(_)) => true,
        (Node::Add(_), Op::Add(_)) => true,
        (Node::Sub(_), Op::Sub(_)) => true,
        (Node::Mul(_), Op::Mul(_)) => true,
        (Node::Exp(_), Op::Exp(_)) => true,
        (Node::If(_), Op::If(_)) => true,
        (Node::For(_), Op::For(_)) => true,
        (Node::Call(_), Op::Call(_)) => true,
        (Node::Fold(_), Op::Fold(_)) => true,
        (Node::Vector(_), Op::Vector(_)) => true,
        (Node::Matrix(_), Op::Matrix(_)) => true,
        (Node::Accessor(_), Op::Accessor(_)) => true,
        (Node::BusOp(_), Op::BusOp(_)) => true,
        (Node::Parameter(_), Op::Parameter(_)) => true,
        (Node::Value(_), Op::Value(_)) => true,
        (Node::Nil(_), Op::Nil(_)) => true,
        _ => false,
    }
}

/// The node variant corresponds to the root variant.
pub open spec fn node_matches_root(n: Node, r: Root) -> bool {
    match (n, r) {
        (Node::Function(_), Root::Function(_)) => true,
        (Node::Evaluator(_), Root::Evaluator(_)) => true,
        (Node::Nil(_), Root::Nil(_)) => true,
        _ => false,
    }
}

/// The owner variant corresponds to the op variant.
pub open spec fn owner_matches_op(o: Owner, op: Op) -> bool {
    match (o, op) {
        (Owner::Enf(_), Op::Enf(_)) => true,
        (Owner::Boundary(_), Op::Boundary(_)) => true,
        (Owner::Add(_), Op::Add(_)) => true,
        (Owner::Sub(_), Op::Sub(_)) => true,
        (Owner::Mul(_), Op::Mul(_)) => true,
        (Owner::Exp(_), Op::Exp(_)) => true,
        (Owner::If(_), Op::If(_)) => true,
        (Owner::For(_), Op::For(_)) => true,
        (Owner::Call(_), Op::Call(_)) => true,
        (Owner::Fold(_), Op::Fold(_)) => true,
        (Owner::Vector(_), Op::Vector(_)) => true,
        (Owner::Matrix(_), Op::Matrix(_)) => true,
        (Owner::Accessor(_), Op::Accessor(_)) => true,
        (Owner::BusOp(_), Op::BusOp(_)) => true,
        (Owner::Nil(_), Op::Nil(_)) => true,
        _ => false,
    }
}

/// The owner variant corresponds to the root variant.
pub open spec fn owner_matches_root(o: Owner, r: Root) -> bool {
    match (o, r) {
        (Owner::Function(_), Root::Function(_)) => true,
        (Owner::Evaluator(_), Root::Evaluator(_)) => true,
        (Owner::Nil(_), Root::Nil(_)) => true,
        _ => false,
    }
}

/// One more than the highest rank among `cs` (0 when `cs` is empty).
pub open spec fn rank_above(rank: Seq<nat>, cs: Seq<Link<Op>>) -> nat
    decreases cs.len(),
{
    if cs.len() == 0 {
        0
    } else {
        let r = rank_above(rank, cs.drop_last());
        let c = rank[cs.last().ptr as int] + 1;
        if r >= c {
            r
        } else {
            c
        }
    }
}

pub proof fn lemma_rank_above(rank: Seq<nat>, cs: Seq<Link<Op>>)
    ensures
        forall|j: int| 0 <= j < cs.len() ==> rank[(#[trigger] cs[j]).ptr as int] < rank_above(rank, cs),
    decreases cs.len(),
{
    if cs.len() > 0 {
        lemma_rank_above(rank, cs.drop_last());
        assert forall|j: int| 0 <= j < cs.len() implies rank[(#[trigger] cs[j]).ptr as int] < rank_above(rank, cs) by {
            if j < cs.len() - 1 {
                assert(cs.drop_last()[j] == cs[j]);
            }
        }
    }
}

/// The parameters and return value of a root name slots below `n`.
pub open spec fn root_ops_below(r: Root, n: nat) -> bool {
    match r {
        Root::Function(f) => {
            &&& forall|j: int| 0 <= j < f.parameters.len() ==> (#[trigger] f.parameters@[j]).ptr < n
            &&& f.return_type.ptr < n
        },
        Root::Evaluator(e) => forall|s: int, j: int|
            0 <= s < e.parameters.len() && 0 <= j < e.parameters@[s].len() ==> (
            #[trigger] e.parameters@[s]@[j]).ptr < n,
        Root::Nil(_) => true,
    }
}

/// The two ops are the same op but for the node and owner views they keep.
pub open spec fn same_but_views(a: Op, b: Op) -> bool {
    match (a, b) {
        (Op::Enf(x), Op::Enf(y)) => x.parents@ == y.parents@ && x.expr == y.expr && x.span == y.span,
        (Op::Boundary(x), Op::Boundary(y)) => x.parents@ == y.parents@ && x.kind == y.kind && x.expr == y.expr && x.span == y.span,
        (Op::Add(x), Op::Add(y)) => x.parents@ == y.parents@ && x.lhs == y.lhs && x.rhs == y.rhs && x.span == y.span,
        (Op::Sub(x), Op::Sub(y)) => x.parents@ == y.parents@ && x.lhs == y.lhs && x.rhs == y.rhs && x.span == y.span,
        (Op::Mul(x), Op::Mul(y)) => x.parents@ == y.parents@ && x.lhs == y.lhs && x.rhs == y.rhs && x.span == y.span,
        (Op::Exp(x), Op::Exp(y)) => x.parents@ == y.parents@ && x.lhs == y.lhs && x.rhs == y.rhs && x.span == y.span,
        (Op::If(x), Op::If(y)) => x.parents@ == y.parents@ && x.match_arms@ == y.match_arms@ && x.span == y.span,
        (Op::For(x), Op::For(y)) => x.parents@ == y.parents@ && x.iterators@ == y.iterators@ && x.expr == y.expr && x.selector == y.selector && x.owner_id == y.owner_id && x.span == y.span,
        (Op::Call(x), Op::Call(y)) => x.parents@ == y.parents@ && x.function == y.function && x.arguments@ == y.arguments@ && x.span == y.span,
        (Op::Fold(x), Op::Fold(y)) => x.parents@ == y.parents@ && x.iterator == y.iterator && x.operator == y.operator && x.initial_value == y.initial_value && x.span == y.span,
        (Op::Vector(x), Op::Vector(y)) => x.parents@ == y.parents@ && x.elements@ == y.elements@ && x.span == y.span,
        (Op::Matrix(x), Op::Matrix(y)) => x.parents@ == y.parents@ && x.elements@ == y.elements@ && x.span == y.span,
        (Op::Accessor(x), Op::Accessor(y)) => x.parents@ == y.parents@ && x.indexable == y.indexable && x.access_type == y.access_type && x.offset == y.offset && x.span == y.span,
        (Op::BusOp(x), Op::BusOp(y)) => x.parents@ == y.parents@ && x.bus == y.bus && x.kind == y.kind && x.args@ == y.args@ && x.latch == y.latch && x.span == y.span,
        (Op::Parameter(x), Op::Parameter(y)) => x.parents@ == y.parents@ && x.owner_id == y.owner_id && x.position == y.position && x.is_for_output == y.is_for_output && x.span == y.span,
        (Op::Value(x), Op::Value(y)) => x.parents@ == y.parents@ && x.value.span == y.value.span && same_value(x.value.value, y.value.value) && x.span == y.span,
        (Op::Nil(x), Op::Nil(y)) => x == y,
        _ => false,
    }
}

/// `b` is `a` with the node view `n` recorded.
pub open spec fn with_node(a: Op, b: Op, n: Link<Node>) -> bool {
    same_but_views(a, b) && op_node(b) == Some(n) && op_owner(b) == op_owner(a)
}

/// `b` is `a` with the owner view `o` recorded.
pub open spec fn with_owner(a: Op, b: Op, o: Link<Owner>) -> bool {
    same_but_views(a, b) && op_owner(b) == Some(o) && op_node(b) == op_node(a)
}

/// `b` is `a` with new live ops appended, every existing op, its rank and its liveness kept, and
/// nothing else changed.
pub open spec fn extends(a: Graph, b: Graph) -> bool {
    &&& b.wf()
    &&& a.ops.len() <= b.ops.len()
    &&& forall|i: int| 0 <= i < a.ops.len() ==> b.ops@[i] == a.ops@[i]
    &&& forall|i: int| 0 <= i < a.ops.len() ==> b.rank@[i] == a.rank@[i]
    &&& forall|i: int| 0 <= i < a.ops.len() ==> b.op_dropped@[i] == a.op_dropped@[i]
    &&& forall|i: int| a.ops.len() <= i < b.ops.len() ==> !b.op_dropped@[i]
    &&& b.roots == a.roots
    &&& b.root_dropped == a.root_dropped
    &&& b.nodes == a.nodes
    &&& b.owners == a.owners
    &&& b.buses == a.buses
    &&& b.boundary_constraints_roots == a.boundary_constraints_roots
    &&& b.integrity_constraints_roots == a.integrity_constraints_roots
    &&& b.functions == a.functions
    &&& b.evaluators == a.evaluators
    &&& b.bus_table == a.bus_table
}

impl Graph {
    /// The graph is well formed: the arenas agree, every handle it holds names a slot, the
    /// views an op or root keeps name it back, and children rank below their parents.
    pub open spec fn wf(&self) -> bool {
        &&& self.op_dropped.len() == self.ops.len()
        &&& self.rank@.len() == self.ops.len()
        &&& self.root_dropped.len() == self.roots.len()
        &&& forall|i: int, j: int|
            0 <= i < self.ops.len() && 0 <= j < op_children(self.ops@[i]).len() ==> {
                let c = #[trigger] op_children(self.ops@[i])[j];
                &&& c.ptr < self.ops.len()
                &&& self.rank@[c.ptr as int] < self.rank@[i]
            }
        &&& forall|i: int, j: int|
            0 <= i < self.roots.len() && 0 <= j < root_children(self.roots@[i]).len() ==> (
            #[trigger] root_children(self.roots@[i])[j]).ptr < self.ops.len()
        &&& forall|i: int| 0 <= i < self.roots.len() ==> root_ops_below(#[trigger] self.roots@[i], self.ops.len() as nat)
        &&& forall|i: int|
            0 <= i < self.ops.len() ==> match op_node(#[trigger] self.ops@[i]) {
                Some(n) => n.ptr < self.nodes.len() && node_op_ptr(self.nodes@[n.ptr as int]) == Some(
                    i as usize,
                ) && node_matches_op(self.nodes@[n.ptr as int], self.ops@[i]),
                None => true,
            }
        &&& forall|i: int|
            0 <= i < self.ops.len() ==> match op_owner(#[trigger] self.ops@[i]) {
                Some(o) => o.ptr < self.owners.len() && owner_op_ptr(self.owners@[o.ptr as int]) == Some(
                    i as usize,
                ),
                None => true,
            }
        &&& forall|i: int|
            0 <= i < self.roots.len() ==> match root_node(#[trigger] self.roots@[i]) {
                Some(n) => n.ptr < self.nodes.len() && node_root_ptr(self.nodes@[n.ptr as int]) == Some(
                    i as usize,
                ),
                None => true,
            }
        &&& forall|i: int|
            0 <= i < self.roots.len() ==> match root_owner(#[trigger] self.roots@[i]) {
                Some(o) => o.ptr < self.owners.len() && owner_root_ptr(self.owners@[o.ptr as int])
                    == Some(i as usize),
                None => true,
            }
        &&& forall|k: int|
            0 <= k < self.boundary_constraints_roots.len() ==> (
            #[trigger] self.boundary_constraints_roots@[k]).ptr < self.ops.len()
        &&& forall|k: int|
            0 <= k < self.integrity_constraints_roots.len() ==> (
            #[trigger] self.integrity_constraints_roots@[k]).ptr < self.ops.len()
        &&& forall|k: int, j: int|
            0 <= k < self.buses.len() && 0 <= j < self.buses@[k].columns.len() ==> (
            #[trigger] self.buses@[k].columns@[j]).ptr < self.ops.len()
        &&& forall|k: int, j: int|
            0 <= k < self.buses.len() && 0 <= j < self.buses@[k].latches.len() ==> (
            #[trigger] self.buses@[k].latches@[j]).ptr < self.ops.len()
        &&& forall|k: int|
            0 <= k < self.buses.len() ==> (#[trigger] self.buses@[k]).first.ptr < self.ops.len()
                && self.buses@[k].last.ptr < self.ops.len()
        &&& forall|k: int| 0 <= k < self.functions.len() ==> (#[trigger] self.functions@[k]).1.ptr < self.roots.len()
        &&& forall|k: int| 0 <= k < self.evaluators.len() ==> (#[trigger] self.evaluators@[k]).1.ptr < self.roots.len()
        &&& forall|k: int| 0 <= k < self.bus_table.len() ==> (#[trigger] self.bus_table@[k]).1.ptr < self.buses.len()
        &&& keys_sorted(self.functions@)
        &&& keys_sorted(self.evaluators@)
        &&& keys_sorted(self.bus_table@)
    }

    /// Is the op slot live?
    pub open spec fn op_live(&self, ptr: usize) -> bool {
        ptr < self.ops.len() && !self.op_dropped@[ptr as int]
    }

    /// Is the root slot live?
    pub open spec fn root_live(&self, ptr: usize) -> bool {
        ptr < self.roots.len() && !self.root_dropped@[ptr as int]
    }

    /// An empty graph.
    pub fn create() -> (g: Graph)
        ensures
            g.wf(),
            g.ops.len() == 0,
            g.roots.len() == 0,
            g.nodes.len() == 0,
            g.owners.len() == 0,
            g.boundary_constraints_roots.len() == 0,
            g.integrity_constraints_roots.len() == 0,
    {
        Graph {
            ops: Vec::new(),
            op_dropped: Vec::new(),
            roots: Vec::new(),
            root_dropped: Vec::new(),
            nodes: Vec::new(),
            owners: Vec::new(),
            buses: Vec::new(),
            boundary_constraints_roots: Vec::new(),
            integrity_constraints_roots: Vec::new(),
            functions: Vec::new(),
            evaluators: Vec::new(),
            bus_table: Vec::new(),
            rank: Ghost(Seq::empty()),
        }
    }

    /// Put a new op, which keeps no views yet, in a new slot.
    pub fn insert_op(&mut self, op: Op) -> (l: Link<Op>)
        requires
            old(self).wf(),
            op_node(op) is None,
            op_owner(op) is None,
            forall|j: int| 0 <= j < op_children(op).len() ==> (#[trigger] op_children(op)[j]).ptr < old(self).ops.len(),
        ensures
            final(self).wf(),
            l.ptr == old(self).ops.len(),
            final(self).ops@ == old(self).ops@.push(op),
            final(self).op_dropped@ == old(self).op_dropped@.push(false),
            final(self).rank@ == old(self).rank@.push(rank_above(old(self).rank@, op_children(op))),
            final(self).roots == old(self).roots,
            final(self).root_dropped == old(self).root_dropped,
            final(self).nodes == old(self).nodes,
            final(self).owners == old(self).owners,
            final(self).buses == old(self).buses,
            final(self).boundary_constraints_roots == old(self).boundary_constraints_roots,
            final(self).integrity_constraints_roots == old(self).integrity_constraints_roots,
            final(self).functions == old(self).functions,
            final(self).evaluators == old(self).evaluators,
            final(self).bus_table == old(self).bus_table,
    {
        let ptr = self.ops.len();
        proof {
            lemma_rank_above(self.rank@, op_children(op));
        }
        self.ops.push(op);
        self.op_dropped.push(false);
        self.rank = Ghost(self.rank@.push(rank_above(old(self).rank@, op_children(op))));
        proof {
            let g = *self;
            assert forall|i: int, j: int|
                0 <= i < g.ops.len() && 0 <= j < op_children(g.ops@[i]).len() implies {
                    let c = #[trigger] op_children(g.ops@[i])[j];
                    &&& c.ptr < g.ops.len()
                    &&& g.rank@[c.ptr as int] < g.rank@[i]
                } by {
                if i < ptr {
                    assert(g.ops@[i] == old(self).ops@[i]);
                }
            }
            assert forall|i: int| 0 <= i < g.ops.len() implies match op_node(#[trigger] g.ops@[i]) {
                Some(n) => n.ptr < g.nodes.len() && node_op_ptr(g.nodes@[n.ptr as int]) == Some(i as usize),
                None => true,
            } by {
                if i < ptr {
                    assert(g.ops@[i] == old(self).ops@[i]);
                }
            }
            assert forall|i: int| 0 <= i < g.ops.len() implies match op_owner(#[trigger] g.ops@[i]) {
                Some(o) => o.ptr < g.owners.len() && owner_op_ptr(g.owners@[o.ptr as int]) == Some(i as usize),
                None => true,
            } by {
                if i < ptr {
                    assert(g.ops@[i] == old(self).ops@[i]);
                }
            }
        }
        Link::new(ptr)
    }
}

/// `s` with every occurrence of `x` taken out, the rest kept in order.
pub open spec fn without_link(s: Seq<Link<Op>>, x: Link<Op>) -> Seq<Link<Op>>
    decreases s.len(),
{
    if s.len() == 0 {
        s
    } else {
        let r = without_link(s.drop_last(), x);
        if s.last() == x {
            r
        } else {
            r.push(s.last())
        }
    }
}

/// `b` is `a` but for its lists of constraint roots.
pub open spec fn same_but_constraint_roots(a: Graph, b: Graph) -> bool {
    &&& b.ops == a.ops
    &&& b.op_dropped == a.op_dropped
    &&& b.rank == a.rank
    &&& b.roots == a.roots
    &&& b.root_dropped == a.root_dropped
    &&& b.nodes == a.nodes
    &&& b.owners == a.owners
    &&& b.buses == a.buses
    &&& b.functions == a.functions
    &&& b.evaluators == a.evaluators
    &&& b.bus_table == a.bus_table
}

/// Taking a link out of a list leaves none of it, and every other link the list holds.
pub proof fn law_without_link(s: Seq<Link<Op>>, x: Link<Op>)
    ensures
        !without_link(s, x).contains(x),
        forall|y: Link<Op>| y != x ==> (without_link(s, x).contains(y) <==> s.contains(y)),
        without_link(s, x).len() <= s.len(),
        !s.contains(x) ==> without_link(s, x) == s,
    decreases s.len(),
{
    if s.len() > 0 {
        let t = s.drop_last();
        law_without_link(t, x);
        let w = without_link(t, x);
        assert(s =~= t.push(s.last()));
        assert forall|y: Link<Op>| y != x implies (without_link(s, x).contains(y) <==> s.contains(y)) by {
            lemma_push_contains(t, s.last(), y);
            lemma_push_contains(w, s.last(), y);
        }
        if without_link(s, x).contains(x) {
            if s.last() != x {
                let r = without_link(t, x);
                let i = choose|i: int| 0 <= i < r.push(s.last()).len() && r.push(s.last())[i] == x;
                assert(r[i] == x);
            }
        }
        if !s.contains(x) {
            assert(!t.contains(x)) by {
                if t.contains(x) {
                    let i = choose|i: int| 0 <= i < t.len() && t[i] == x;
                    assert(s[i] == x);
                }
            }
            assert(s.last() != x) by {
                assert(s[s.len() - 1] == s.last());
            }
            assert(s =~= t.push(s.last()));
        }
    }
}

/// A list with one more element holds what the list held, and that element.
proof fn lemma_push_contains(p: Seq<Link<Op>>, a: Link<Op>, y: Link<Op>)
    ensures
        p.push(a).contains(y) <==> (p.contains(y) || a == y),
{
    if p.contains(y) {
        let i = choose|i: int| 0 <= i < p.len() && p[i] == y;
        assert(p.push(a)[i] == y);
    }
    if a == y {
        assert(p.push(a)[p.len() as int] == y);
    }
    if p.push(a).contains(y) {
        let i = choose|i: int| 0 <= i < p.push(a).len() && p.push(a)[i] == y;
        if i < p.len() {
            assert(p[i] == y);
        }
    }
}

/// Does `roots` hold `root`?
fn holds_root(roots: &Vec<Link<Op>>, root: Link<Op>) -> (r: bool)
    ensures
        r == roots@.contains(root),
{
    let mut i: usize = 0;
    while i < roots.len()
        invariant
            i <= roots.len(),
            forall|j: int| 0 <= j < i ==> roots@[j] != root,
        decreases roots.len() - i,
    {
        if roots[i].ptr == root.ptr {
            assert(roots@[i as int] == root);
            return true;
        }
        i = i + 1;
    }
    false
}

/// `roots` with every occurrence of `root` taken out.
fn retain_other_roots(roots: &Vec<Link<Op>>, root: Link<Op>) -> (r: Vec<Link<Op>>)
    ensures
        r@ == without_link(roots@, root),
{
    let mut out: Vec<Link<Op>> = Vec::new();
    let mut i: usize = 0;
    while i < roots.len()
        invariant
            i <= roots.len(),
            out@ == without_link(roots@.take(i as int), root),
        decreases roots.len() - i,
    {
        assert(roots@.take(i + 1).drop_last() =~= roots@.take(i as int));
        assert(roots@.take(i + 1).last() == roots@[i as int]);
        if roots[i].ptr != root.ptr {
            out.push(roots[i]);
        } else {
            assert(roots@[i as int] == root);
        }
        i = i + 1;
    }
    assert(roots@.take(roots.len() as int) =~= roots@);
    out
}

impl Graph {
    /// Inserts a boundary constraint into the graph, if it does not already exist.
    pub fn insert_boundary_constraints_root(&mut self, root: Link<Op>)
        requires
            old(self).wf(),
            root.ptr < old(self).ops.len(),
        ensures
            final(self).wf(),
            same_but_constraint_roots(*old(self), *final(self)),
            final(self).integrity_constraints_roots == old(self).integrity_constraints_roots,
            final(self).boundary_constraints_roots@ == (if old(self).boundary_constraints_roots@.contains(root) {
                old(self).boundary_constraints_roots@
            } else {
                old(self).boundary_constraints_roots@.push(root)
            }),
    {
        if !holds_root(&self.boundary_constraints_roots, root) {
            self.boundary_constraints_roots.push(root);
        }
    }

    /// Removes a boundary constraint from the graph.
    pub fn remove_boundary_constraints_root(&mut self, root: Link<Op>)
        requires
            old(self).wf(),
        ensures
            final(self).wf(),
            same_but_constraint_roots(*old(self), *final(self)),
            final(self).integrity_constraints_roots == old(self).integrity_constraints_roots,
            final(self).boundary_constraints_roots@ == without_link(old(self).boundary_constraints_roots@, root),
    {
        let kept = retain_other_roots(&self.boundary_constraints_roots, root);
        proof {
            lemma_without_link_within(self.boundary_constraints_roots@, root, self.ops.len());
        }
        self.boundary_constraints_roots = kept;
    }

    /// Inserts an integrity constraint into the graph, if it does not already exist.
    pub fn insert_integrity_constraints_root(&mut self, root: Link<Op>)
        requires
            old(self).wf(),
            root.ptr < old(self).ops.len(),
        ensures
            final(self).wf(),
            same_but_constraint_roots(*old(self), *final(self)),
            final(self).boundary_constraints_roots == old(self).boundary_constraints_roots,
            final(self).integrity_constraints_roots@ == (if old(self).integrity_constraints_roots@.contains(root) {
                old(self).integrity_constraints_roots@
            } else {
                old(self).integrity_constraints_roots@.push(root)
            }),
    {
        if !holds_root(&self.integrity_constraints_roots, root) {
            self.integrity_constraints_roots.push(root);
        }
    }

    /// Removes an integrity constraint from the graph.
    pub fn remove_integrity_constraints_root(&mut self, root: Link<Op>)
        requires
            old(self).wf(),
        ensures
            final(self).wf(),
            same_but_constraint_roots(*old(self), *final(self)),
            final(self).boundary_constraints_roots == old(self).boundary_constraints_roots,
            final(self).integrity_constraints_roots@ == without_link(old(self).integrity_constraints_roots@, root),
    {
        let kept = retain_other_roots(&self.integrity_constraints_roots, root);
        proof {
            lemma_without_link_within(self.integrity_constraints_roots@, root, self.ops.len());
        }
        self.integrity_constraints_roots = kept;
    }
}

/// Taking links out of a list of handles below `n` leaves handles below `n`.
proof fn lemma_without_link_within(s: Seq<Link<Op>>, x: Link<Op>, n: usize)
    requires
        forall|k: int| 0 <= k < s.len() ==> (#[trigger] s[k]).ptr < n,
    ensures
        forall|k: int| 0 <= k < without_link(s, x).len() ==> (#[trigger] without_link(s, x)[k]).ptr < n,
    decreases s.len(),
{
    if s.len() > 0 {
        let t = s.drop_last();
        assert forall|k: int| 0 <= k < t.len() implies (#[trigger] t[k]).ptr < n by {
            assert(t[k] == s[k]);
        }
        lemma_without_link_within(t, x, n);
    }
}

impl Graph {
    /// Put a new root, which keeps no views yet and names only op slots, in a new slot.
    pub fn insert_root(&mut self, r: Root) -> (l: Link<Root>)
        requires
            old(self).wf(),
            root_node(r) is None,
            root_owner(r) is None,
            forall|j: int| 0 <= j < root_children(r).len() ==> (#[trigger] root_children(r)[j]).ptr < old(self).ops.len(),
            root_ops_below(r, old(self).ops.len() as nat),
        ensures
            final(self).wf(),
            l.ptr == old(self).roots.len(),
            final(self).roots@ == old(self).roots@.push(r),
            final(self).root_dropped@ == old(self).root_dropped@.push(false),
            final(self).ops == old(self).ops,
            final(self).op_dropped == old(self).op_dropped,
            final(self).rank == old(self).rank,
            final(self).nodes == old(self).nodes,
            final(self).owners == old(self).owners,
            final(self).buses == old(self).buses,
            final(self).boundary_constraints_roots == old(self).boundary_constraints_roots,
            final(self).integrity_constraints_roots == old(self).integrity_constraints_roots,
            final(self).functions == old(self).functions,
            final(self).evaluators == old(self).evaluators,
            final(self).bus_table == old(self).bus_table,
    {
        let ptr = self.roots.len();
        let ghost before = *self;
        self.roots.push(r);
        self.root_dropped.push(false);
        proof {
            let g = *self;
            assert forall|i: int, j: int|
                0 <= i < g.roots.len() && 0 <= j < root_children(g.roots@[i]).len() implies (
                #[trigger] root_children(g.roots@[i])[j]).ptr < g.ops.len() by {
                if i < ptr {
                    assert(g.roots@[i] == before.roots@[i]);
                }
            }
            assert forall|i: int| 0 <= i < g.roots.len() implies root_ops_below(#[trigger] g.roots@[i], g.ops.len() as nat) by {
                if i < ptr {
                    assert(g.roots@[i] == before.roots@[i]);
                }
            }
            assert forall|i: int| 0 <= i < g.roots.len() implies match root_node(#[trigger] g.roots@[i]) {
                Some(n) => n.ptr < g.nodes.len() && node_root_ptr(g.nodes@[n.ptr as int]) == Some(i as usize),
                None => true,
            } by {
                if i < ptr {
                    assert(g.roots@[i] == before.roots@[i]);
                }
            }
            assert forall|i: int| 0 <= i < g.roots.len() implies match root_owner(#[trigger] g.roots@[i]) {
                Some(o) => o.ptr < g.owners.len() && owner_root_ptr(g.owners@[o.ptr as int]) == Some(i as usize),
                None => true,
            } by {
                if i < ptr {
                    assert(g.roots@[i] == before.roots@[i]);
                }
            }
        }
        Link::new(ptr)
    }
}

} // verus!
