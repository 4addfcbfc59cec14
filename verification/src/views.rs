//! The node and owner views of ops and roots, kept once per op or root, and the accessors of the
//! graph's handles.
use vstd::prelude::*;

use crate::graph::{Graph, is_owner_op, node_matches_op, node_matches_root, node_op_ptr, node_root_ptr, op_node, op_owner, owner_matches_op, owner_matches_root, owner_op_ptr, owner_root_ptr, root_children, root_node, root_owner, same_but_views, with_node, with_owner};
use crate::ir::{Accessor, Add, Boundary, BusOp, Call, Enf, Evaluator, Exp, Fold, For, Function, If, Matrix, Mul, Node, Op, Owner, Parameter, Root, Sub, Value, Vector, is_none_op, op_children};
use crate::link::{BackLink, Link, Singleton};
use crate::value::{SourceSpan, clone_spanned, copy_vec};

verus! {

pub(crate) fn op_node_of(op: &Op) -> (r: Option<Link<Node>>)
    ensures
        r == op_node(*op),
{
    match op {
        Op::Enf(x) => x._node.0,
        Op::Boundary(x) => x._node.0,
        Op::Add(x) => x._node.0,
        Op::Sub(x) => x._node.0,
        Op::Mul(x) => x._node.0,
        Op::Exp(x) => x._node.0,
        Op::If(x) => x._node.0,
        Op::For(x) => x._node.0,
        Op::Call(x) => x._node.0,
        Op::Fold(x) => x._node.0,
        Op::Vector(x) => x._node.0,
        Op::Matrix(x) => x._node.0,
        Op::Accessor(x) => x._node.0,
        Op::BusOp(x) => x._node.0,
        Op::Parameter(x) => x._node.0,
        Op::Value(x) => x._node.0,
        Op::Nil(_) => None,
    }
}

pub(crate) fn op_owner_of(op: &Op) -> (r: Option<Link<Owner>>)
    ensures
        r == op_owner(*op),
{
    match op {
        Op::Enf(x) => x._owner.0,
        Op::Boundary(x) => x._owner.0,
        Op::Add(x) => x._owner.0,
        Op::Sub(x) => x._owner.0,
        Op::Mul(x) => x._owner.0,
        Op::Exp(x) => x._owner.0,
        Op::If(x) => x._owner.0,
        Op::For(x) => x._owner.0,
        Op::Call(x) => x._owner.0,
        Op::Fold(x) => x._owner.0,
        Op::Vector(x) => x._owner.0,
        Op::Matrix(x) => x._owner.0,
        Op::Accessor(x) => x._owner.0,
        Op::BusOp(x) => x._owner.0,
        _ => None,
    }
}

pub(crate) fn is_owner_kind(op: &Op) -> (r: bool)
    ensures
        r == is_owner_op(*op),
{
    match op {
        Op::Parameter(_) | Op::Value(_) | Op::Nil(_) => false,
        _ => true,
    }
}

pub(crate) fn is_nil(op: &Op) -> (r: bool)
    ensures
        r == is_none_op(*op),
{
    match op {
        Op::Nil(_) => true,
        _ => false,
    }
}

/// The node view of the op in slot `ptr`.
pub(crate) fn node_for_op(op: &Op, ptr: usize) -> (r: Node)
    ensures
        node_matches_op(r, *op),
        !is_none_op(*op) ==> node_op_ptr(r) == Some(ptr),
        is_none_op(*op) ==> node_op_ptr(r) is None && node_root_ptr(r) is None,
        *op matches Op::Nil(span) ==> r == Node::Nil(span),
{
    let b: BackLink<Op> = BackLink::new(ptr);
    match op {
        Op::Enf(_) => Node::Enf(b),
        Op::Boundary(_) => Node::Boundary(b),
        Op::Add(_) => Node::Add(b),
        Op::Sub(_) => Node::Sub(b),
        Op::Mul(_) => Node::Mul(b),
        Op::Exp(_) => Node::Exp(b),
        Op::If(_) => Node::If(b),
        Op::For(_) => Node::For(b),
        Op::Call(_) => Node::Call(b),
        Op::Fold(_) => Node::Fold(b),
        Op::Vector(_) => Node::Vector(b),
        Op::Matrix(_) => Node::Matrix(b),
        Op::Accessor(_) => Node::Accessor(b),
        Op::BusOp(_) => Node::BusOp(b),
        Op::Parameter(_) => Node::Parameter(b),
        Op::Value(_) => Node::Value(b),
        Op::Nil(span) => Node::Nil(*span),
    }
}

/// The owner view of the op in slot `ptr`; the op can own ops or is `Nil`.
fn owner_for_op(op: &Op, ptr: usize) -> (r: Owner)
    requires
        is_owner_op(*op) || is_none_op(*op),
    ensures
        owner_matches_op(r, *op),
        !is_none_op(*op) ==> owner_op_ptr(r) == Some(ptr),
        is_none_op(*op) ==> owner_op_ptr(r) is None && owner_root_ptr(r) is None,
        *op matches Op::Nil(span) ==> r == Owner::Nil(span),
{
    let b: BackLink<Op> = BackLink::new(ptr);
    match op {
        Op::Enf(_) => Owner::Enf(b),
        Op::Boundary(_) => Owner::Boundary(b),
        Op::Add(_) => Owner::Add(b),
        Op::Sub(_) => Owner::Sub(b),
        Op::Mul(_) => Owner::Mul(b),
        Op::Exp(_) => Owner::Exp(b),
        Op::If(_) => Owner::If(b),
        Op::For(_) => Owner::For(b),
        Op::Call(_) => Owner::Call(b),
        Op::Fold(_) => Owner::Fold(b),
        Op::Vector(_) => Owner::Vector(b),
        Op::Matrix(_) => Owner::Matrix(b),
        Op::Accessor(_) => Owner::Accessor(b),
        Op::BusOp(_) => Owner::BusOp(b),
        Op::Nil(span) => Owner::Nil(*span),
        _ => Owner::Nil(SourceSpan::default()),
    }
}

fn set_op_node(op: &mut Op, n: Link<Node>)
    requires
        !is_none_op(*old(op)),
    ensures
        with_node(*old(op), *final(op), n),
{
    match op {
        Op::Enf(x) => { x._node = Singleton(Some(n)); },
        Op::Boundary(x) => { x._node = Singleton(Some(n)); },
        Op::Add(x) => { x._node = Singleton(Some(n)); },
        Op::Sub(x) => { x._node = Singleton(Some(n)); },
        Op::Mul(x) => { x._node = Singleton(Some(n)); },
        Op::Exp(x) => { x._node = Singleton(Some(n)); },
        Op::If(x) => { x._node = Singleton(Some(n)); },
        Op::For(x) => { x._node = Singleton(Some(n)); },
        Op::Call(x) => { x._node = Singleton(Some(n)); },
        Op::Fold(x) => { x._node = Singleton(Some(n)); },
        Op::Vector(x) => { x._node = Singleton(Some(n)); },
        Op::Matrix(x) => { x._node = Singleton(Some(n)); },
        Op::Accessor(x) => { x._node = Singleton(Some(n)); },
        Op::BusOp(x) => { x._node = Singleton(Some(n)); },
        Op::Parameter(x) => { x._node = Singleton(Some(n)); },
        Op::Value(x) => { x._node = Singleton(Some(n)); },
        Op::Nil(_) => {},
    }
}

fn set_op_owner(op: &mut Op, o: Link<Owner>)
    requires
        is_owner_op(*old(op)),
    ensures
        with_owner(*old(op), *final(op), o),
{
    match op {
        Op::Enf(x) => { x._owner = Singleton(Some(o)); },
        Op::Boundary(x) => { x._owner = Singleton(Some(o)); },
        Op::Add(x) => { x._owner = Singleton(Some(o)); },
        Op::Sub(x) => { x._owner = Singleton(Some(o)); },
        Op::Mul(x) => { x._owner = Singleton(Some(o)); },
        Op::Exp(x) => { x._owner = Singleton(Some(o)); },
        Op::If(x) => { x._owner = Singleton(Some(o)); },
        Op::For(x) => { x._owner = Singleton(Some(o)); },
        Op::Call(x) => { x._owner = Singleton(Some(o)); },
        Op::Fold(x) => { x._owner = Singleton(Some(o)); },
        Op::Vector(x) => { x._owner = Singleton(Some(o)); },
        Op::Matrix(x) => { x._owner = Singleton(Some(o)); },
        Op::Accessor(x) => { x._owner = Singleton(Some(o)); },
        Op::BusOp(x) => { x._owner = Singleton(Some(o)); },
        _ => {},
    }
}

/// A copy of `op` keeping the views `node` and `owner` (where its kind keeps them).
pub(crate) fn clone_op(op: &Op, node: Option<Link<Node>>, owner: Option<Link<Owner>>) -> (r: Op)
    ensures
        same_but_views(*op, r),
        op_node(r) == (if is_none_op(*op) { None } else { node }),
        op_owner(r) == (if is_owner_op(*op) { owner } else { None }),
{
    match op {
        Op::Enf(x) => Op::Enf(Enf { parents: copy_vec(&x.parents), expr: x.expr, _node: Singleton(node), _owner: Singleton(owner), span: x.span }),
        Op::Boundary(x) => Op::Boundary(Boundary { parents: copy_vec(&x.parents), kind: x.kind, expr: x.expr, _node: Singleton(node), _owner: Singleton(owner), span: x.span }),
        Op::Add(x) => Op::Add(Add { parents: copy_vec(&x.parents), lhs: x.lhs, rhs: x.rhs, _node: Singleton(node), _owner: Singleton(owner), span: x.span }),
        Op::Sub(x) => Op::Sub(Sub { parents: copy_vec(&x.parents), lhs: x.lhs, rhs: x.rhs, _node: Singleton(node), _owner: Singleton(owner), span: x.span }),
        Op::Mul(x) => Op::Mul(Mul { parents: copy_vec(&x.parents), lhs: x.lhs, rhs: x.rhs, _node: Singleton(node), _owner: Singleton(owner), span: x.span }),
        Op::Exp(x) => Op::Exp(Exp { parents: copy_vec(&x.parents), lhs: x.lhs, rhs: x.rhs, _node: Singleton(node), _owner: Singleton(owner), span: x.span }),
        Op::If(x) => Op::If(If { parents: copy_vec(&x.parents), match_arms: copy_vec(&x.match_arms), _node: Singleton(node), _owner: Singleton(owner), span: x.span }),
        Op::For(x) => Op::For(For { parents: copy_vec(&x.parents), iterators: copy_vec(&x.iterators), expr: x.expr, selector: x.selector, owner_id: x.owner_id, _node: Singleton(node), _owner: Singleton(owner), span: x.span }),
        Op::Call(x) => Op::Call(Call { parents: copy_vec(&x.parents), function: x.function, arguments: copy_vec(&x.arguments), _node: Singleton(node), _owner: Singleton(owner), span: x.span }),
        Op::Fold(x) => Op::Fold(Fold { parents: copy_vec(&x.parents), iterator: x.iterator, operator: x.operator, initial_value: x.initial_value, _node: Singleton(node), _owner: Singleton(owner), span: x.span }),
        Op::Vector(x) => Op::Vector(Vector { parents: copy_vec(&x.parents), elements: copy_vec(&x.elements), _node: Singleton(node), _owner: Singleton(owner), span: x.span }),
        Op::Matrix(x) => Op::Matrix(Matrix { parents: copy_vec(&x.parents), elements: copy_vec(&x.elements), _node: Singleton(node), _owner: Singleton(owner), span: x.span }),
        Op::Accessor(x) => Op::Accessor(Accessor { parents: copy_vec(&x.parents), indexable: x.indexable, access_type: x.access_type.clone(), offset: x.offset, _node: Singleton(node), _owner: Singleton(owner), span: x.span }),
        Op::BusOp(x) => Op::BusOp(BusOp { parents: copy_vec(&x.parents), bus: x.bus, kind: x.kind, args: copy_vec(&x.args), latch: x.latch, _node: Singleton(node), _owner: Singleton(owner), span: x.span }),
        Op::Parameter(x) => Op::Parameter(Parameter { parents: copy_vec(&x.parents), owner_id: x.owner_id, position: x.position, ty: x.ty, is_for_output: x.is_for_output, _node: Singleton(node), span: x.span }),
        Op::Value(x) => Op::Value(Value { parents: copy_vec(&x.parents), value: clone_spanned(&x.value), _node: Singleton(node), span: x.span }),
        Op::Nil(s) => Op::Nil(*s),
    }
}

pub proof fn lemma_same_but_views(a: Op, b: Op)
    requires
        same_but_views(a, b),
    ensures
        op_children(a) == op_children(b),
        is_owner_op(a) == is_owner_op(b),
        is_none_op(a) == is_none_op(b),
        forall|n: Node| node_matches_op(n, a) == node_matches_op(n, b),
        forall|o: Owner| owner_matches_op(o, a) == owner_matches_op(o, b),
{
}

/// Everything but the arenas of ops, roots, nodes and owners is the same.
pub open spec fn frame(a: Graph, b: Graph) -> bool {
    &&& a.op_dropped == b.op_dropped
    &&& a.root_dropped == b.root_dropped
    &&& a.rank == b.rank
    &&& a.buses == b.buses
    &&& a.boundary_constraints_roots == b.boundary_constraints_roots
    &&& a.integrity_constraints_roots == b.integrity_constraints_roots
    &&& a.functions == b.functions
    &&& a.evaluators == b.evaluators
    &&& a.bus_table == b.bus_table
}

/// The live op a node names, if any.
pub open spec fn node_live_op(g: Graph, n: Node) -> Option<usize> {
    match node_op_ptr(n) {
        Some(p) => if g.op_live(p) {
            Some(p)
        } else {
            None
        },
        None => None,
    }
}

/// The live root a node names, if any.
pub open spec fn node_live_root(g: Graph, n: Node) -> Option<usize> {
    match node_root_ptr(n) {
        Some(p) => if g.root_live(p) {
            Some(p)
        } else {
            None
        },
        None => None,
    }
}

/// The live op an owner names, if any.
pub open spec fn owner_live_op(g: Graph, o: Owner) -> Option<usize> {
    match owner_op_ptr(o) {
        Some(p) => if g.op_live(p) {
            Some(p)
        } else {
            None
        },
        None => None,
    }
}

/// The live root an owner names, if any.
pub open spec fn owner_live_root(g: Graph, o: Owner) -> Option<usize> {
    match owner_root_ptr(o) {
        Some(p) => if g.root_live(p) {
            Some(p)
        } else {
            None
        },
        None => None,
    }
}

fn node_op_ptr_of(n: &Node) -> (r: Option<usize>)
    ensures
        r == node_op_ptr(*n),
{
    match n {
        Node::Function(_) => None,
        Node::Evaluator(_) => None,
        Node::Enf(b) => Some(b.ptr),
        Node::Boundary(b) => Some(b.ptr),
        Node::Add(b) => Some(b.ptr),
        Node::Sub(b) => Some(b.ptr),
        Node::Mul(b) => Some(b.ptr),
        Node::Exp(b) => Some(b.ptr),
        Node::If(b) => Some(b.ptr),
        Node::For(b) => Some(b.ptr),
        Node::Call(b) => Some(b.ptr),
        Node::Fold(b) => Some(b.ptr),
        Node::Vector(b) => Some(b.ptr),
        Node::Matrix(b) => Some(b.ptr),
        Node::Accessor(b) => Some(b.ptr),
        Node::BusOp(b) => Some(b.ptr),
        Node::Parameter(b) => Some(b.ptr),
        Node::Value(b) => Some(b.ptr),
        Node::Nil(_) => None,
    }
}

fn node_root_ptr_of(n: &Node) -> (r: Option<usize>)
    ensures
        r == node_root_ptr(*n),
{
    match n {
        Node::Function(b) => Some(b.ptr),
        Node::Evaluator(b) => Some(b.ptr),
        _ => None,
    }
}

fn owner_op_ptr_of(o: &Owner) -> (r: Option<usize>)
    ensures
        r == owner_op_ptr(*o),
{
    match o {
        Owner::Function(_) => None,
        Owner::Evaluator(_) => None,
        Owner::Accessor(b) => Some(b.ptr),
        Owner::BusOp(b) => Some(b.ptr),
        Owner::Boundary(b) => Some(b.ptr),
        Owner::Vector(b) => Some(b.ptr),
        Owner::Matrix(b) => Some(b.ptr),
        Owner::Call(b) => Some(b.ptr),
        Owner::Fold(b) => Some(b.ptr),
        Owner::Add(b) => Some(b.ptr),
        Owner::Sub(b) => Some(b.ptr),
        Owner::Mul(b) => Some(b.ptr),
        Owner::Exp(b) => Some(b.ptr),
        Owner::Enf(b) => Some(b.ptr),
        Owner::For(b) => Some(b.ptr),
        Owner::If(b) => Some(b.ptr),
        Owner::Nil(_) => None,
    }
}

fn owner_root_ptr_of(o: &Owner) -> (r: Option<usize>)
    ensures
        r == owner_root_ptr(*o),
{
    match o {
        Owner::Function(b) => Some(b.ptr),
        Owner::Evaluator(b) => Some(b.ptr),
        _ => None,
    }
}

/// The node view of the root in slot `ptr`.
fn node_for_root(r: &Root, ptr: usize) -> (n: Node)
    ensures
        node_matches_root(n, *r),
        !(*r is Nil) ==> node_root_ptr(n) == Some(ptr),
        *r is Nil ==> node_op_ptr(n) is None && node_root_ptr(n) is None,
        *r matches Root::Nil(span) ==> n == Node::Nil(span),
{
    let b: BackLink<Root> = BackLink::new(ptr);
    match r {
        Root::Function(_) => Node::Function(b),
        Root::Evaluator(_) => Node::Evaluator(b),
        Root::Nil(span) => Node::Nil(*span),
    }
}

/// The owner view of the root in slot `ptr`.
fn owner_for_root(r: &Root, ptr: usize) -> (o: Owner)
    ensures
        owner_matches_root(o, *r),
        !(*r is Nil) ==> owner_root_ptr(o) == Some(ptr),
        *r is Nil ==> owner_op_ptr(o) is None && owner_root_ptr(o) is None,
        *r matches Root::Nil(span) ==> o == Owner::Nil(span),
{
    let b: BackLink<Root> = BackLink::new(ptr);
    match r {
        Root::Function(_) => Owner::Function(b),
        Root::Evaluator(_) => Owner::Evaluator(b),
        Root::Nil(span) => Owner::Nil(*span),
    }
}

impl BackLink<Op> {
    /// The strong handle on the op, if its slot is live.
    pub fn to_link(&self, g: &Graph) -> (r: Option<Link<Op>>)
        requires
            g.wf(),
        ensures
            (r is Some) == g.op_live(self.ptr),
            r matches Some(l) ==> l.ptr == self.ptr,
    {
        if self.ptr < g.ops.len() && !g.op_dropped[self.ptr] {
            Some(Link::new(self.ptr))
        } else {
            None
        }
    }
}

impl BackLink<Root> {
    /// The strong handle on the root, if its slot is live.
    pub fn to_link(&self, g: &Graph) -> (r: Option<Link<Root>>)
        requires
            g.wf(),
        ensures
            (r is Some) == g.root_live(self.ptr),
            r matches Some(l) ==> l.ptr == self.ptr,
    {
        if self.ptr < g.roots.len() && !g.root_dropped[self.ptr] {
            Some(Link::new(self.ptr))
        } else {
            None
        }
    }
}

impl Link<Node> {
    /// Try getting the current [Node]'s op; `None` if it names a root or is stale.
    pub fn as_op(&self, g: &Graph) -> (r: Option<Link<Op>>)
        requires
            g.wf(),
            self.ptr < g.nodes.len(),
        ensures
            (r is Some) == (node_live_op(*g, g.nodes@[self.ptr as int]) is Some),
            r matches Some(l) ==> Some(l.ptr) == node_live_op(*g, g.nodes@[self.ptr as int]),
    {
        match node_op_ptr_of(&g.nodes[self.ptr]) {
            Some(p) => BackLink::<Op>::new(p).to_link(g),
            None => None,
        }
    }

    /// Try getting the current [Node]'s root; `None` if it names an op or is stale.
    pub fn as_root(&self, g: &Graph) -> (r: Option<Link<Root>>)
        requires
            g.wf(),
            self.ptr < g.nodes.len(),
        ensures
            (r is Some) == (node_live_root(*g, g.nodes@[self.ptr as int]) is Some),
            r matches Some(l) ==> Some(l.ptr) == node_live_root(*g, g.nodes@[self.ptr as int]),
    {
        match node_root_ptr_of(&g.nodes[self.ptr]) {
            Some(p) => BackLink::<Root>::new(p).to_link(g),
            None => None,
        }
    }

    /// Check if the [Node]'s op or root no longer exists (or it never named one).
    pub fn is_stale(&self, g: &Graph) -> (r: bool)
        requires
            g.wf(),
            self.ptr < g.nodes.len(),
        ensures
            r == (node_live_root(*g, g.nodes@[self.ptr as int]) is None && node_live_op(
                *g,
                g.nodes@[self.ptr as int],
            ) is None),
    {
        match self.as_root(g) {
            Some(_) => false,
            None => self.as_op(g).is_none(),
        }
    }

    /// Update the current [Node] to the variant of its op or root, which must exist.
    pub fn update_variant(&self, g: &mut Graph)
        requires
            old(g).wf(),
            self.ptr < old(g).nodes.len(),
            node_live_root(*old(g), old(g).nodes@[self.ptr as int]) is Some || node_live_op(
                *old(g),
                old(g).nodes@[self.ptr as int],
            ) is Some,
        ensures
            final(g).wf(),
            final(g).ops == old(g).ops,
            final(g).roots == old(g).roots,
            final(g).owners == old(g).owners,
            frame(*old(g), *final(g)),
            final(g).nodes@ == old(g).nodes@.update(self.ptr as int, final(g).nodes@[self.ptr as int]),
            match node_live_op(*old(g), old(g).nodes@[self.ptr as int]) {
                Some(p) => {
                    let n = final(g).nodes@[self.ptr as int];
                    &&& node_matches_op(n, old(g).ops@[p as int])
                    &&& !is_none_op(old(g).ops@[p as int]) ==> node_op_ptr(n) == Some(p)
                    &&& old(g).ops@[p as int] matches Op::Nil(span) ==> n == Node::Nil(span)
                },
                None => {
                    let p = node_live_root(*old(g), old(g).nodes@[self.ptr as int]).unwrap();
                    let n = final(g).nodes@[self.ptr as int];
                    &&& node_matches_root(n, old(g).roots@[p as int])
                    &&& !(old(g).roots@[p as int] is Nil) ==> node_root_ptr(n) == Some(p)
                    &&& old(g).roots@[p as int] matches Root::Nil(span) ==> n == Node::Nil(span)
                },
            },
    {
        let to_update;
        if let Some(op) = self.as_op(g) {
            to_update = node_for_op(&g.ops[op.ptr], op.ptr);
        } else {
            let root = self.as_root(g).unwrap();
            to_update = node_for_root(&g.roots[root.ptr], root.ptr);
        }
        let ghost before = *g;
        g.nodes.set(self.ptr, to_update);
        proof {
            assert forall|i: int| 0 <= i < g.ops.len() implies match op_node(#[trigger] g.ops@[i]) {
                Some(n) => n.ptr < g.nodes.len() && node_op_ptr(g.nodes@[n.ptr as int]) == Some(i as usize),
                None => true,
            } by {
                if let Some(n) = op_node(g.ops@[i]) {
                    assert(node_op_ptr(before.nodes@[n.ptr as int]) == Some(i as usize));
                    if n.ptr == self.ptr {
                        assert(node_live_op(before, before.nodes@[self.ptr as int]) == Some(i as usize));
                    }
                }
            }
            assert forall|i: int| 0 <= i < g.roots.len() implies match root_node(#[trigger] g.roots@[i]) {
                Some(n) => n.ptr < g.nodes.len() && node_root_ptr(g.nodes@[n.ptr as int]) == Some(i as usize),
                None => true,
            } by {
                if let Some(n) = root_node(g.roots@[i]) {
                    assert(node_root_ptr(before.nodes@[n.ptr as int]) == Some(i as usize));
                }
            }
        }
    }

    /// Try getting the current [Node]'s owner view; `None` if the node is stale or does not own
    /// ops.
    pub fn as_owner(&self, g: &mut Graph) -> (r: Option<Link<Owner>>)
        requires
            old(g).wf(),
            self.ptr < old(g).nodes.len(),
        ensures
            final(g).wf(),
            frame(*old(g), *final(g)),
            final(g).nodes.len() == old(g).nodes.len(),
            final(g).ops.len() == old(g).ops.len(),
            final(g).roots.len() == old(g).roots.len(),
            r matches Some(o) ==> o.ptr < final(g).owners.len(),
            (r is Some) == (node_live_root(*old(g), old(g).nodes@[self.ptr as int]) is Some || match node_live_op(*old(g), old(g).nodes@[self.ptr as int]) {
                Some(p) => is_owner_op(old(g).ops@[p as int]),
                None => false,
            }),
    {
        match self.as_root(g) {
            Some(root) => Some(root.as_owner(g)),
            None => match self.as_op(g) {
                Some(op) => op.as_owner(g),
                None => None,
            },
        }
    }
}

impl Link<Owner> {
    /// Try getting the current [Owner]'s op; `None` if it names a root or is stale.
    pub fn as_op(&self, g: &Graph) -> (r: Option<Link<Op>>)
        requires
            g.wf(),
            self.ptr < g.owners.len(),
        ensures
            (r is Some) == (owner_live_op(*g, g.owners@[self.ptr as int]) is Some),
            r matches Some(l) ==> Some(l.ptr) == owner_live_op(*g, g.owners@[self.ptr as int]),
    {
        match owner_op_ptr_of(&g.owners[self.ptr]) {
            Some(p) => BackLink::<Op>::new(p).to_link(g),
            None => None,
        }
    }

    /// Try getting the current [Owner]'s root; `None` if it names an op or is stale.
    pub fn as_root(&self, g: &Graph) -> (r: Option<Link<Root>>)
        requires
            g.wf(),
            self.ptr < g.owners.len(),
        ensures
            (r is Some) == (owner_live_root(*g, g.owners@[self.ptr as int]) is Some),
            r matches Some(l) ==> Some(l.ptr) == owner_live_root(*g, g.owners@[self.ptr as int]),
    {
        match owner_root_ptr_of(&g.owners[self.ptr]) {
            Some(p) => BackLink::<Root>::new(p).to_link(g),
            None => None,
        }
    }

    /// Check if the [Owner]'s op or root no longer exists (or it never named one).
    pub fn is_stale(&self, g: &Graph) -> (r: bool)
        requires
            g.wf(),
            self.ptr < g.owners.len(),
        ensures
            r == (owner_live_root(*g, g.owners@[self.ptr as int]) is None && owner_live_op(
                *g,
                g.owners@[self.ptr as int],
            ) is None),
    {
        match self.as_root(g) {
            Some(_) => false,
            None => self.as_op(g).is_none(),
        }
    }

    /// Update the current [Owner] to the variant of its op or root, which must exist and, for
    /// an op, be able to own ops (or be `Nil`).
    pub fn update_variant(&self, g: &mut Graph)
        requires
            old(g).wf(),
            self.ptr < old(g).owners.len(),
            node_live_root_or_op_owner(*old(g), old(g).owners@[self.ptr as int]),
        ensures
            final(g).wf(),
            final(g).ops == old(g).ops,
            final(g).roots == old(g).roots,
            final(g).nodes == old(g).nodes,
            frame(*old(g), *final(g)),
            final(g).owners@ == old(g).owners@.update(self.ptr as int, final(g).owners@[self.ptr as int]),
            match owner_live_op(*old(g), old(g).owners@[self.ptr as int]) {
                Some(p) => {
                    let o = final(g).owners@[self.ptr as int];
                    &&& owner_matches_op(o, old(g).ops@[p as int])
                    &&& !is_none_op(old(g).ops@[p as int]) ==> owner_op_ptr(o) == Some(p)
                    &&& old(g).ops@[p as int] matches Op::Nil(span) ==> o == Owner::Nil(span)
                },
                None => {
                    let p = owner_live_root(*old(g), old(g).owners@[self.ptr as int]).unwrap();
                    let o = final(g).owners@[self.ptr as int];
                    &&& owner_matches_root(o, old(g).roots@[p as int])
                    &&& !(old(g).roots@[p as int] is Nil) ==> owner_root_ptr(o) == Some(p)
                    &&& old(g).roots@[p as int] matches Root::Nil(span) ==> o == Owner::Nil(span)
                },
            },
    {
        let to_update;
        if let Some(op) = self.as_op(g) {
            to_update = owner_for_op(&g.ops[op.ptr], op.ptr);
        } else {
            let root = self.as_root(g).unwrap();
            to_update = owner_for_root(&g.roots[root.ptr], root.ptr);
        }
        let ghost before = *g;
        g.owners.set(self.ptr, to_update);
        proof {
            assert forall|i: int| 0 <= i < g.ops.len() implies match op_owner(#[trigger] g.ops@[i]) {
                Some(o) => o.ptr < g.owners.len() && owner_op_ptr(g.owners@[o.ptr as int]) == Some(i as usize),
                None => true,
            } by {
                if let Some(o) = op_owner(g.ops@[i]) {
                    assert(owner_op_ptr(before.owners@[o.ptr as int]) == Some(i as usize));
                    if o.ptr == self.ptr {
                        assert(owner_live_op(before, before.owners@[self.ptr as int]) == Some(i as usize));
                    }
                }
            }
            assert forall|i: int| 0 <= i < g.roots.len() implies match root_owner(#[trigger] g.roots@[i]) {
                Some(o) => o.ptr < g.owners.len() && owner_root_ptr(g.owners@[o.ptr as int]) == Some(i as usize),
                None => true,
            } by {
                if let Some(o) = root_owner(g.roots@[i]) {
                    assert(owner_root_ptr(before.owners@[o.ptr as int]) == Some(i as usize));
                }
            }
        }
    }

    /// Get the current [Owner]'s node view; a new `Nil` node if the owner is stale.
    pub fn as_node(&self, g: &mut Graph) -> (r: Link<Node>)
        requires
            old(g).wf(),
            self.ptr < old(g).owners.len(),
        ensures
            final(g).wf(),
            frame(*old(g), *final(g)),
            r.ptr < final(g).nodes.len(),
            match owner_live_root(*old(g), old(g).owners@[self.ptr as int]) {
                Some(p) => !(old(g).roots@[p as int] is Nil) ==> root_node(final(g).roots@[p as int]) == Some(r),
                None => match owner_live_op(*old(g), old(g).owners@[self.ptr as int]) {
                    Some(p) => !is_none_op(old(g).ops@[p as int]) ==> op_node(final(g).ops@[p as int]) == Some(r),
                    None => r.ptr == old(g).nodes.len() && final(g).nodes@[r.ptr as int] is Nil,
                },
            },
            final(g).ops.len() == old(g).ops.len(),
            final(g).roots.len() == old(g).roots.len(),
            final(g).owners.len() == old(g).owners.len(),
    {
        match self.as_root(g) {
            Some(root) => root.as_node(g),
            None => match self.as_op(g) {
                Some(op) => op.as_node(g),
                None => {
                    let n = Link::new(g.nodes.len());
                    g.nodes.push(Node::Nil(SourceSpan::default()));
                    n
                },
            },
        }
    }
}

/// The owner names a live root, or a live op that can own ops (or is `Nil`).
pub open spec fn node_live_root_or_op_owner(g: Graph, o: Owner) -> bool {
    ||| owner_live_root(g, o) is Some
    ||| match owner_live_op(g, o) {
        Some(p) => is_owner_op(g.ops@[p as int]) || is_none_op(g.ops@[p as int]),
        None => false,
    }
}

impl BackLink<Owner> {
    /// The slot of the op or root the owner names; 0 if the owner is stale.
    pub fn get_ptr(&self, g: &Graph) -> (r: usize)
        requires
            g.wf(),
            self.ptr < g.owners.len(),
        ensures
            r == match owner_live_root(*g, g.owners@[self.ptr as int]) {
                Some(p) => p,
                None => match owner_live_op(*g, g.owners@[self.ptr as int]) {
                    Some(p) => p,
                    None => 0,
                },
            },
    {
        let l: Link<Owner> = Link::new(self.ptr);
        match l.as_root(g) {
            Some(root) => root.ptr,
            None => match l.as_op(g) {
                Some(op) => op.ptr,
                None => 0,
            },
        }
    }
}

impl Link<Root> {
    /// Try getting the current [Root]'s inner [Function].
    pub fn as_function<'a>(&self, g: &'a Graph) -> (r: Option<&'a Function>)
        requires
            self.ptr < g.roots.len(),
        ensures
            r is Some <==> g.roots@[self.ptr as int] is Function,
            r matches Some(f) ==> g.roots@[self.ptr as int] == Root::Function(*f),
    {
        match &g.roots[self.ptr] {
            Root::Function(f) => Some(f),
            _ => None,
        }
    }

    /// Try getting the current [Root]'s inner [Evaluator].
    pub fn as_evaluator<'a>(&self, g: &'a Graph) -> (r: Option<&'a Evaluator>)
        requires
            self.ptr < g.roots.len(),
        ensures
            r is Some <==> g.roots@[self.ptr as int] is Evaluator,
            r matches Some(e) ==> g.roots@[self.ptr as int] == Root::Evaluator(*e),
    {
        match &g.roots[self.ptr] {
            Root::Evaluator(e) => Some(e),
            _ => None,
        }
    }

    /// Try getting the current [Root]'s inner [Function] for modification.
    pub fn as_function_mut<'a>(&self, g: &'a mut Graph) -> (r: Option<&'a mut Function>)
        requires
            self.ptr < old(g).roots.len(),
        ensures
            (r is Some) == (old(g).roots@[self.ptr as int] is Function),
            match r {
                Some(x) => old(g).roots@[self.ptr as int] == Root::Function(*x) && final(g).roots@ == old(g).roots@.update(
                    self.ptr as int,
                    Root::Function(*final(x)),
                ),
                None => final(g).roots@ == old(g).roots@,
            },
            final(g).ops == old(g).ops,
            final(g).root_dropped == old(g).root_dropped,
            final(g).nodes == old(g).nodes,
            final(g).owners == old(g).owners,
            frame(*old(g), *final(g)),
    {
        let root = &mut g.roots[self.ptr];
        function_of_mut(root)
    }

    /// Try getting the current [Root]'s inner [Evaluator] for modification.
    pub fn as_evaluator_mut<'a>(&self, g: &'a mut Graph) -> (r: Option<&'a mut Evaluator>)
        requires
            self.ptr < old(g).roots.len(),
        ensures
            (r is Some) == (old(g).roots@[self.ptr as int] is Evaluator),
            match r {
                Some(x) => old(g).roots@[self.ptr as int] == Root::Evaluator(*x) && final(g).roots@ == old(g).roots@.update(
                    self.ptr as int,
                    Root::Evaluator(*final(x)),
                ),
                None => final(g).roots@ == old(g).roots@,
            },
            final(g).ops == old(g).ops,
            final(g).root_dropped == old(g).root_dropped,
            final(g).nodes == old(g).nodes,
            final(g).owners == old(g).owners,
            frame(*old(g), *final(g)),
    {
        let root = &mut g.roots[self.ptr];
        evaluator_of_mut(root)
    }

    /// Get the current [Root]'s node view, making it on first use.
    pub fn as_node(&self, g: &mut Graph) -> (n: Link<Node>)
        requires
            old(g).wf(),
            self.ptr < old(g).roots.len(),
        ensures
            final(g).wf(),
            frame(*old(g), *final(g)),
            final(g).ops == old(g).ops,
            final(g).owners == old(g).owners,
            final(g).roots.len() == old(g).roots.len(),
            n.ptr < final(g).nodes.len(),
            root_node(old(g).roots@[self.ptr as int]) matches Some(m) ==> n == m && *final(g) == *old(g),
            !(old(g).roots@[self.ptr as int] is Nil) ==> node_root_ptr(final(g).nodes@[n.ptr as int]) == Some(self.ptr),
            !(old(g).roots@[self.ptr as int] is Nil) ==> root_node(final(g).roots@[self.ptr as int]) == Some(n)
                && !(final(g).roots@[self.ptr as int] is Nil),
            old(g).roots@[self.ptr as int] is Nil ==> final(g).roots@[self.ptr as int] == old(g).roots@[self.ptr as int],
            forall|i: int| 0 <= i < old(g).roots.len() && i != self.ptr ==> final(g).roots@[i] == old(g).roots@[i],
    {
        let existing = match &g.roots[self.ptr] {
            Root::Function(x) => x._node.0,
            Root::Evaluator(x) => x._node.0,
            Root::Nil(_) => None,
        };
        if let Some(n) = existing {
            return n;
        }
        let node = node_for_root(&g.roots[self.ptr], self.ptr);
        let n = Link::new(g.nodes.len());
        let ghost before = *g;
        g.nodes.push(node);
        let r = &mut g.roots[self.ptr];
        match r {
            Root::Function(x) => { x._node = Singleton(Some(n)); },
            Root::Evaluator(x) => { x._node = Singleton(Some(n)); },
            Root::Nil(_) => {},
        }
        proof {
            assert forall|i: int| 0 <= i < g.ops.len() implies match op_node(#[trigger] g.ops@[i]) {
                Some(m) => m.ptr < g.nodes.len() && node_op_ptr(g.nodes@[m.ptr as int]) == Some(i as usize),
                None => true,
            } by {
                if let Some(m) = op_node(g.ops@[i]) {
                    assert(node_op_ptr(before.nodes@[m.ptr as int]) == Some(i as usize));
                    assert(g.nodes@[m.ptr as int] == before.nodes@[m.ptr as int]);
                }
            }
            assert forall|i: int| 0 <= i < g.roots.len() implies match root_node(#[trigger] g.roots@[i]) {
                Some(m) => m.ptr < g.nodes.len() && node_root_ptr(g.nodes@[m.ptr as int]) == Some(i as usize),
                None => true,
            } by {
                if i != self.ptr {
                    assert(g.roots@[i] == before.roots@[i]);
                    if let Some(m) = root_node(g.roots@[i]) {
                        assert(g.nodes@[m.ptr as int] == before.nodes@[m.ptr as int]);
                    }
                }
            }
            assert forall|i: int| 0 <= i < g.roots.len() implies match root_owner(#[trigger] g.roots@[i]) {
                Some(o) => o.ptr < g.owners.len() && owner_root_ptr(g.owners@[o.ptr as int]) == Some(i as usize),
                None => true,
            } by {
                if i != self.ptr {
                    assert(g.roots@[i] == before.roots@[i]);
                } else {
                    assert(root_owner(g.roots@[i]) == root_owner(before.roots@[i]));
                }
            }
            assert forall|i: int, j: int|
                0 <= i < g.roots.len() && 0 <= j < root_children(g.roots@[i]).len() implies (
                #[trigger] root_children(g.roots@[i])[j]).ptr < g.ops.len() by {
                if i != self.ptr {
                    assert(g.roots@[i] == before.roots@[i]);
                } else {
                    assert(root_children(g.roots@[i]) == root_children(before.roots@[i]));
                }
            }
        }
        n
    }

    /// Get the current [Root]'s owner view, making it on first use.
    pub fn as_owner(&self, g: &mut Graph) -> (o: Link<Owner>)
        requires
            old(g).wf(),
            self.ptr < old(g).roots.len(),
        ensures
            final(g).wf(),
            frame(*old(g), *final(g)),
            final(g).ops == old(g).ops,
            final(g).nodes == old(g).nodes,
            final(g).roots.len() == old(g).roots.len(),
            o.ptr < final(g).owners.len(),
            root_owner(old(g).roots@[self.ptr as int]) matches Some(m) ==> o == m && *final(g) == *old(g),
            !(old(g).roots@[self.ptr as int] is Nil) ==> owner_root_ptr(final(g).owners@[o.ptr as int]) == Some(self.ptr),
    {
        let existing = match &g.roots[self.ptr] {
            Root::Function(x) => x._owner.0,
            Root::Evaluator(x) => x._owner.0,
            Root::Nil(_) => None,
        };
        if let Some(o) = existing {
            return o;
        }
        let owner = owner_for_root(&g.roots[self.ptr], self.ptr);
        let o = Link::new(g.owners.len());
        let ghost before = *g;
        g.owners.push(owner);
        let r = &mut g.roots[self.ptr];
        match r {
            Root::Function(x) => { x._owner = Singleton(Some(o)); },
            Root::Evaluator(x) => { x._owner = Singleton(Some(o)); },
            Root::Nil(_) => {},
        }
        proof {
            assert forall|i: int| 0 <= i < g.ops.len() implies match op_owner(#[trigger] g.ops@[i]) {
                Some(m) => m.ptr < g.owners.len() && owner_op_ptr(g.owners@[m.ptr as int]) == Some(i as usize),
                None => true,
            } by {
                if let Some(m) = op_owner(g.ops@[i]) {
                    assert(owner_op_ptr(before.owners@[m.ptr as int]) == Some(i as usize));
                    assert(g.owners@[m.ptr as int] == before.owners@[m.ptr as int]);
                }
            }
            assert forall|i: int| 0 <= i < g.roots.len() implies match root_owner(#[trigger] g.roots@[i]) {
                Some(m) => m.ptr < g.owners.len() && owner_root_ptr(g.owners@[m.ptr as int]) == Some(i as usize),
                None => true,
            } by {
                if i != self.ptr {
                    assert(g.roots@[i] == before.roots@[i]);
                    if let Some(m) = root_owner(g.roots@[i]) {
                        assert(g.owners@[m.ptr as int] == before.owners@[m.ptr as int]);
                    }
                }
            }
            assert forall|i: int| 0 <= i < g.roots.len() implies match root_node(#[trigger] g.roots@[i]) {
                Some(n) => n.ptr < g.nodes.len() && node_root_ptr(g.nodes@[n.ptr as int]) == Some(i as usize),
                None => true,
            } by {
                if i != self.ptr {
                    assert(g.roots@[i] == before.roots@[i]);
                } else {
                    assert(root_node(g.roots@[i]) == root_node(before.roots@[i]));
                }
            }
            assert forall|i: int, j: int|
                0 <= i < g.roots.len() && 0 <= j < root_children(g.roots@[i]).len() implies (
                #[trigger] root_children(g.roots@[i])[j]).ptr < g.ops.len() by {
                if i != self.ptr {
                    assert(g.roots@[i] == before.roots@[i]);
                } else {
                    assert(root_children(g.roots@[i]) == root_children(before.roots@[i]));
                }
            }
        }
        o
    }
}

impl Link<Op> {
    /// Get the current [Op]'s node view, making it on first use and re-using it after.
    /// A `Nil` op keeps no view: each call gives a new `Nil` node.
    pub fn as_node(&self, g: &mut Graph) -> (n: Link<Node>)
        requires
            old(g).wf(),
            self.ptr < old(g).ops.len(),
        ensures
            final(g).wf(),
            frame(*old(g), *final(g)),
            final(g).roots == old(g).roots,
            final(g).owners == old(g).owners,
            final(g).ops.len() == old(g).ops.len(),
            n.ptr < final(g).nodes.len(),
            forall|i: int| 0 <= i < old(g).ops.len() && i != self.ptr ==> final(g).ops@[i] == old(g).ops@[i],
            match op_node(old(g).ops@[self.ptr as int]) {
                Some(m) => n == m && final(g).ops == old(g).ops && final(g).nodes == old(g).nodes && node_matches_op(
                    final(g).nodes@[n.ptr as int],
                    old(g).ops@[self.ptr as int],
                ) && node_op_ptr(final(g).nodes@[n.ptr as int]) == Some(self.ptr),
                None => {
                    &&& n.ptr == old(g).nodes.len()
                    &&& final(g).nodes@ == old(g).nodes@.push(final(g).nodes@[n.ptr as int])
                    &&& node_matches_op(final(g).nodes@[n.ptr as int], old(g).ops@[self.ptr as int])
                    &&& is_none_op(old(g).ops@[self.ptr as int]) ==> final(g).ops == old(g).ops
                    &&& !is_none_op(old(g).ops@[self.ptr as int]) ==> {
                        &&& node_op_ptr(final(g).nodes@[n.ptr as int]) == Some(self.ptr)
                        &&& with_node(old(g).ops@[self.ptr as int], final(g).ops@[self.ptr as int], n)
                    }
                },
            },
    {
        if let Some(n) = op_node_of(&g.ops[self.ptr]) {
            return n;
        }
        let node = node_for_op(&g.ops[self.ptr], self.ptr);
        let nil = is_nil(&g.ops[self.ptr]);
        let n = Link::new(g.nodes.len());
        let ghost before = *g;
        g.nodes.push(node);
        if !nil {
            set_op_node(&mut g.ops[self.ptr], n);
        }
        proof {
            lemma_same_but_views(before.ops@[self.ptr as int], g.ops@[self.ptr as int]);
            assert forall|i: int, j: int|
                0 <= i < g.ops.len() && 0 <= j < op_children(g.ops@[i]).len() implies {
                    let c = #[trigger] op_children(g.ops@[i])[j];
                    &&& c.ptr < g.ops.len()
                    &&& g.rank@[c.ptr as int] < g.rank@[i]
                } by {
                if i != self.ptr {
                    assert(g.ops@[i] == before.ops@[i]);
                } else {
                    assert(op_children(g.ops@[i]) == op_children(before.ops@[i]));
                }
            }
            assert forall|i: int| 0 <= i < g.ops.len() implies match op_node(#[trigger] g.ops@[i]) {
                Some(m) => m.ptr < g.nodes.len() && node_op_ptr(g.nodes@[m.ptr as int]) == Some(i as usize),
                None => true,
            } by {
                if i != self.ptr {
                    assert(g.ops@[i] == before.ops@[i]);
                    if let Some(m) = op_node(g.ops@[i]) {
                        assert(g.nodes@[m.ptr as int] == before.nodes@[m.ptr as int]);
                    }
                }
            }
            assert forall|i: int| 0 <= i < g.ops.len() implies match op_owner(#[trigger] g.ops@[i]) {
                Some(o) => o.ptr < g.owners.len() && owner_op_ptr(g.owners@[o.ptr as int]) == Some(i as usize),
                None => true,
            } by {
                if i != self.ptr {
                    assert(g.ops@[i] == before.ops@[i]);
                } else {
                    assert(op_owner(g.ops@[i]) == op_owner(before.ops@[i]));
                }
            }
            assert forall|i: int| 0 <= i < g.roots.len() implies match root_node(#[trigger] g.roots@[i]) {
                Some(m) => m.ptr < g.nodes.len() && node_root_ptr(g.nodes@[m.ptr as int]) == Some(i as usize),
                None => true,
            } by {
                if let Some(m) = root_node(g.roots@[i]) {
                    assert(g.nodes@[m.ptr as int] == before.nodes@[m.ptr as int]);
                }
            }
        }
        n
    }

    /// Get the current [Op]'s owner view, making it on first use and re-using it after.
    /// `None` for ops that own no ops (parameters, values and `Nil`).
    pub fn as_owner(&self, g: &mut Graph) -> (o: Option<Link<Owner>>)
        requires
            old(g).wf(),
            self.ptr < old(g).ops.len(),
        ensures
            final(g).wf(),
            frame(*old(g), *final(g)),
            final(g).roots == old(g).roots,
            final(g).nodes == old(g).nodes,
            final(g).ops.len() == old(g).ops.len(),
            forall|i: int| 0 <= i < old(g).ops.len() && i != self.ptr ==> final(g).ops@[i] == old(g).ops@[i],
            (o is Some) == is_owner_op(old(g).ops@[self.ptr as int]),
            o matches Some(l) ==> l.ptr < final(g).owners.len(),
            !is_owner_op(old(g).ops@[self.ptr as int]) ==> final(g).ops == old(g).ops,
            match op_owner(old(g).ops@[self.ptr as int]) {
                Some(m) => o == Some(m) && final(g).ops == old(g).ops && final(g).owners == old(g).owners,
                None => is_owner_op(old(g).ops@[self.ptr as int]) ==> {
                    let l = o.unwrap();
                    &&& l.ptr == old(g).owners.len()
                    &&& final(g).owners@ == old(g).owners@.push(final(g).owners@[l.ptr as int])
                    &&& owner_matches_op(final(g).owners@[l.ptr as int], old(g).ops@[self.ptr as int])
                    &&& owner_op_ptr(final(g).owners@[l.ptr as int]) == Some(self.ptr)
                    &&& with_owner(old(g).ops@[self.ptr as int], final(g).ops@[self.ptr as int], l)
                },
            },
    {
        if let Some(o) = op_owner_of(&g.ops[self.ptr]) {
            return Some(o);
        }
        if !is_owner_kind(&g.ops[self.ptr]) {
            return None;
        }
        let owner = owner_for_op(&g.ops[self.ptr], self.ptr);
        let o = Link::new(g.owners.len());
        let ghost before = *g;
        g.owners.push(owner);
        set_op_owner(&mut g.ops[self.ptr], o);
        proof {
            lemma_same_but_views(before.ops@[self.ptr as int], g.ops@[self.ptr as int]);
            assert forall|i: int, j: int|
                0 <= i < g.ops.len() && 0 <= j < op_children(g.ops@[i]).len() implies {
                    let c = #[trigger] op_children(g.ops@[i])[j];
                    &&& c.ptr < g.ops.len()
                    &&& g.rank@[c.ptr as int] < g.rank@[i]
                } by {
                if i != self.ptr {
                    assert(g.ops@[i] == before.ops@[i]);
                } else {
                    assert(op_children(g.ops@[i]) == op_children(before.ops@[i]));
                }
            }
            assert forall|i: int| 0 <= i < g.ops.len() implies match op_owner(#[trigger] g.ops@[i]) {
                Some(m) => m.ptr < g.owners.len() && owner_op_ptr(g.owners@[m.ptr as int]) == Some(i as usize),
                None => true,
            } by {
                if i != self.ptr {
                    assert(g.ops@[i] == before.ops@[i]);
                    if let Some(m) = op_owner(g.ops@[i]) {
                        assert(g.owners@[m.ptr as int] == before.owners@[m.ptr as int]);
                    }
                }
            }
            assert forall|i: int| 0 <= i < g.ops.len() implies match op_node(#[trigger] g.ops@[i]) {
                Some(m) => m.ptr < g.nodes.len() && node_op_ptr(g.nodes@[m.ptr as int]) == Some(i as usize),
                None => true,
            } by {
                if i != self.ptr {
                    assert(g.ops@[i] == before.ops@[i]);
                } else {
                    assert(op_node(g.ops@[i]) == op_node(before.ops@[i]));
                }
            }
            assert forall|i: int| 0 <= i < g.roots.len() implies match root_owner(#[trigger] g.roots@[i]) {
                Some(m) => m.ptr < g.owners.len() && owner_root_ptr(g.owners@[m.ptr as int]) == Some(i as usize),
                None => true,
            } by {
                if let Some(m) = root_owner(g.roots@[i]) {
                    assert(g.owners@[m.ptr as int] == before.owners@[m.ptr as int]);
                }
            }
        }
        Some(o)
    }

    /// Try getting the current [Op]'s inner [Enf]; `None` if it is another kind of op.
    pub fn as_enf<'a>(&self, g: &'a Graph) -> (r: Option<&'a Enf>)
        requires
            self.ptr < g.ops.len(),
        ensures
            (r is Some) == (g.ops@[self.ptr as int] is Enf),
            r matches Some(x) ==> g.ops@[self.ptr as int] == Op::Enf(*x),
    {
        match &g.ops[self.ptr] {
            Op::Enf(x) => Some(x),
            _ => None,
        }
    }

    /// Try getting the current [Op]'s inner [Enf] for modification; `None` if it is another kind
    /// of op.
    pub fn as_enf_mut<'a>(&self, g: &'a mut Graph) -> (r: Option<&'a mut Enf>)
        requires
            self.ptr < old(g).ops.len(),
        ensures
            (r is Some) == (old(g).ops@[self.ptr as int] is Enf),
            match r {
                Some(x) => old(g).ops@[self.ptr as int] == Op::Enf(*x) && final(g).ops@ == old(g).ops@.update(
                    self.ptr as int,
                    Op::Enf(*final(x)),
                ),
                None => final(g).ops@ == old(g).ops@,
            },
            final(g).op_dropped == old(g).op_dropped,
            final(g).roots == old(g).roots,
            final(g).nodes == old(g).nodes,
            final(g).owners == old(g).owners,
            frame(*old(g), *final(g)),
    {
        let op = &mut g.ops[self.ptr];
        enf_of_mut(op)
    }

    /// Try getting the current [Op]'s inner [Boundary]; `None` if it is another kind of op.
    pub fn as_boundary<'a>(&self, g: &'a Graph) -> (r: Option<&'a Boundary>)
        requires
            self.ptr < g.ops.len(),
        ensures
            (r is Some) == (g.ops@[self.ptr as int] is Boundary),
            r matches Some(x) ==> g.ops@[self.ptr as int] == Op::Boundary(*x),
    {
        match &g.ops[self.ptr] {
            Op::Boundary(x) => Some(x),
            _ => None,
        }
    }

    /// Try getting the current [Op]'s inner [Boundary] for modification; `None` if it is another kind
    /// of op.
    pub fn as_boundary_mut<'a>(&self, g: &'a mut Graph) -> (r: Option<&'a mut Boundary>)
        requires
            self.ptr < old(g).ops.len(),
        ensures
            (r is Some) == (old(g).ops@[self.ptr as int] is Boundary),
            match r {
                Some(x) => old(g).ops@[self.ptr as int] == Op::Boundary(*x) && final(g).ops@ == old(g).ops@.update(
                    self.ptr as int,
                    Op::Boundary(*final(x)),
                ),
                None => final(g).ops@ == old(g).ops@,
            },
            final(g).op_dropped == old(g).op_dropped,
            final(g).roots == old(g).roots,
            final(g).nodes == old(g).nodes,
            final(g).owners == old(g).owners,
            frame(*old(g), *final(g)),
    {
        let op = &mut g.ops[self.ptr];
        boundary_of_mut(op)
    }

    /// Try getting the current [Op]'s inner [Add]; `None` if it is another kind of op.
    pub fn as_add<'a>(&self, g: &'a Graph) -> (r: Option<&'a Add>)
        requires
            self.ptr < g.ops.len(),
        ensures
            (r is Some) == (g.ops@[self.ptr as int] is Add),
            r matches Some(x) ==> g.ops@[self.ptr as int] == Op::Add(*x),
    {
        match &g.ops[self.ptr] {
            Op::Add(x) => Some(x),
            _ => None,
        }
    }

    /// Try getting the current [Op]'s inner [Add] for modification; `None` if it is another kind
    /// of op.
    pub fn as_add_mut<'a>(&self, g: &'a mut Graph) -> (r: Option<&'a mut Add>)
        requires
            self.ptr < old(g).ops.len(),
        ensures
            (r is Some) == (old(g).ops@[self.ptr as int] is Add),
            match r {
                Some(x) => old(g).ops@[self.ptr as int] == Op::Add(*x) && final(g).ops@ == old(g).ops@.update(
                    self.ptr as int,
                    Op::Add(*final(x)),
                ),
                None => final(g).ops@ == old(g).ops@,
            },
            final(g).op_dropped == old(g).op_dropped,
            final(g).roots == old(g).roots,
            final(g).nodes == old(g).nodes,
            final(g).owners == old(g).owners,
            frame(*old(g), *final(g)),
    {
        let op = &mut g.ops[self.ptr];
        add_of_mut(op)
    }

    /// Try getting the current [Op]'s inner [Sub]; `None` if it is another kind of op.
    pub fn as_sub<'a>(&self, g: &'a Graph) -> (r: Option<&'a Sub>)
        requires
            self.ptr < g.ops.len(),
        ensures
            (r is Some) == (g.ops@[self.ptr as int] is Sub),
            r matches Some(x) ==> g.ops@[self.ptr as int] == Op::Sub(*x),
    {
        match &g.ops[self.ptr] {
            Op::Sub(x) => Some(x),
            _ => None,
        }
    }

    /// Try getting the current [Op]'s inner [Sub] for modification; `None` if it is another kind
    /// of op.
    pub fn as_sub_mut<'a>(&self, g: &'a mut Graph) -> (r: Option<&'a mut Sub>)
        requires
            self.ptr < old(g).ops.len(),
        ensures
            (r is Some) == (old(g).ops@[self.ptr as int] is Sub),
            match r {
                Some(x) => old(g).ops@[self.ptr as int] == Op::Sub(*x) && final(g).ops@ == old(g).ops@.update(
                    self.ptr as int,
                    Op::Sub(*final(x)),
                ),
                None => final(g).ops@ == old(g).ops@,
            },
            final(g).op_dropped == old(g).op_dropped,
            final(g).roots == old(g).roots,
            final(g).nodes == old(g).nodes,
            final(g).owners == old(g).owners,
            frame(*old(g), *final(g)),
    {
        let op = &mut g.ops[self.ptr];
        sub_of_mut(op)
    }

    /// Try getting the current [Op]'s inner [Mul]; `None` if it is another kind of op.
    pub fn as_mul<'a>(&self, g: &'a Graph) -> (r: Option<&'a Mul>)
        requires
            self.ptr < g.ops.len(),
        ensures
            (r is Some) == (g.ops@[self.ptr as int] is Mul),
            r matches Some(x) ==> g.ops@[self.ptr as int] == Op::Mul(*x),
    {
        match &g.ops[self.ptr] {
            Op::Mul(x) => Some(x),
            _ => None,
        }
    }

    /// Try getting the current [Op]'s inner [Mul] for modification; `None` if it is another kind
    /// of op.
    pub fn as_mul_mut<'a>(&self, g: &'a mut Graph) -> (r: Option<&'a mut Mul>)
        requires
            self.ptr < old(g).ops.len(),
        ensures
            (r is Some) == (old(g).ops@[self.ptr as int] is Mul),
            match r {
                Some(x) => old(g).ops@[self.ptr as int] == Op::Mul(*x) && final(g).ops@ == old(g).ops@.update(
                    self.ptr as int,
                    Op::Mul(*final(x)),
                ),
                None => final(g).ops@ == old(g).ops@,
            },
            final(g).op_dropped == old(g).op_dropped,
            final(g).roots == old(g).roots,
            final(g).nodes == old(g).nodes,
            final(g).owners == old(g).owners,
            frame(*old(g), *final(g)),
    {
        let op = &mut g.ops[self.ptr];
        mul_of_mut(op)
    }

    /// Try getting the current [Op]'s inner [Exp]; `None` if it is another kind of op.
    pub fn as_exp<'a>(&self, g: &'a Graph) -> (r: Option<&'a Exp>)
        requires
            self.ptr < g.ops.len(),
        ensures
            (r is Some) == (g.ops@[self.ptr as int] is Exp),
            r matches Some(x) ==> g.ops@[self.ptr as int] == Op::Exp(*x),
    {
        match &g.ops[self.ptr] {
            Op::Exp(x) => Some(x),
            _ => None,
        }
    }

    /// Try getting the current [Op]'s inner [Exp] for modification; `None` if it is another kind
    /// of op.
    pub fn as_exp_mut<'a>(&self, g: &'a mut Graph) -> (r: Option<&'a mut Exp>)
        requires
            self.ptr < old(g).ops.len(),
        ensures
            (r is Some) == (old(g).ops@[self.ptr as int] is Exp),
            match r {
                Some(x) => old(g).ops@[self.ptr as int] == Op::Exp(*x) && final(g).ops@ == old(g).ops@.update(
                    self.ptr as int,
                    Op::Exp(*final(x)),
                ),
                None => final(g).ops@ == old(g).ops@,
            },
            final(g).op_dropped == old(g).op_dropped,
            final(g).roots == old(g).roots,
            final(g).nodes == old(g).nodes,
            final(g).owners == old(g).owners,
            frame(*old(g), *final(g)),
    {
        let op = &mut g.ops[self.ptr];
        exp_of_mut(op)
    }

    /// Try getting the current [Op]'s inner [If]; `None` if it is another kind of op.
    pub fn as_if<'a>(&self, g: &'a Graph) -> (r: Option<&'a If>)
        requires
            self.ptr < g.ops.len(),
        ensures
            (r is Some) == (g.ops@[self.ptr as int] is If),
            r matches Some(x) ==> g.ops@[self.ptr as int] == Op::If(*x),
    {
        match &g.ops[self.ptr] {
            Op::If(x) => Some(x),
            _ => None,
        }
    }

    /// Try getting the current [Op]'s inner [If] for modification; `None` if it is another kind
    /// of op.
    pub fn as_if_mut<'a>(&self, g: &'a mut Graph) -> (r: Option<&'a mut If>)
        requires
            self.ptr < old(g).ops.len(),
        ensures
            (r is Some) == (old(g).ops@[self.ptr as int] is If),
            match r {
                Some(x) => old(g).ops@[self.ptr as int] == Op::If(*x) && final(g).ops@ == old(g).ops@.update(
                    self.ptr as int,
                    Op::If(*final(x)),
                ),
                None => final(g).ops@ == old(g).ops@,
            },
            final(g).op_dropped == old(g).op_dropped,
            final(g).roots == old(g).roots,
            final(g).nodes == old(g).nodes,
            final(g).owners == old(g).owners,
            frame(*old(g), *final(g)),
    {
        let op = &mut g.ops[self.ptr];
        if_of_mut(op)
    }

    /// Try getting the current [Op]'s inner [For]; `None` if it is another kind of op.
    pub fn as_for<'a>(&self, g: &'a Graph) -> (r: Option<&'a For>)
        requires
            self.ptr < g.ops.len(),
        ensures
            (r is Some) == (g.ops@[self.ptr as int] is For),
            r matches Some(x) ==> g.ops@[self.ptr as int] == Op::For(*x),
    {
        match &g.ops[self.ptr] {
            Op::For(x) => Some(x),
            _ => None,
        }
    }

    /// Try getting the current [Op]'s inner [For] for modification; `None` if it is another kind
    /// of op.
    pub fn as_for_mut<'a>(&self, g: &'a mut Graph) -> (r: Option<&'a mut For>)
        requires
            self.ptr < old(g).ops.len(),
        ensures
            (r is Some) == (old(g).ops@[self.ptr as int] is For),
            match r {
                Some(x) => old(g).ops@[self.ptr as int] == Op::For(*x) && final(g).ops@ == old(g).ops@.update(
                    self.ptr as int,
                    Op::For(*final(x)),
                ),
                None => final(g).ops@ == old(g).ops@,
            },
            final(g).op_dropped == old(g).op_dropped,
            final(g).roots == old(g).roots,
            final(g).nodes == old(g).nodes,
            final(g).owners == old(g).owners,
            frame(*old(g), *final(g)),
    {
        let op = &mut g.ops[self.ptr];
        for_of_mut(op)
    }

    /// Try getting the current [Op]'s inner [Call]; `None` if it is another kind of op.
    pub fn as_call<'a>(&self, g: &'a Graph) -> (r: Option<&'a Call>)
        requires
            self.ptr < g.ops.len(),
        ensures
            (r is Some) == (g.ops@[self.ptr as int] is Call),
            r matches Some(x) ==> g.ops@[self.ptr as int] == Op::Call(*x),
    {
        match &g.ops[self.ptr] {
            Op::Call(x) => Some(x),
            _ => None,
        }
    }

    /// Try getting the current [Op]'s inner [Call] for modification; `None` if it is another kind
    /// of op.
    pub fn as_call_mut<'a>(&self, g: &'a mut Graph) -> (r: Option<&'a mut Call>)
        requires
            self.ptr < old(g).ops.len(),
        ensures
            (r is Some) == (old(g).ops@[self.ptr as int] is Call),
            match r {
                Some(x) => old(g).ops@[self.ptr as int] == Op::Call(*x) && final(g).ops@ == old(g).ops@.update(
                    self.ptr as int,
                    Op::Call(*final(x)),
                ),
                None => final(g).ops@ == old(g).ops@,
            },
            final(g).op_dropped == old(g).op_dropped,
            final(g).roots == old(g).roots,
            final(g).nodes == old(g).nodes,
            final(g).owners == old(g).owners,
            frame(*old(g), *final(g)),
    {
        let op = &mut g.ops[self.ptr];
        call_of_mut(op)
    }

    /// Try getting the current [Op]'s inner [Fold]; `None` if it is another kind of op.
    pub fn as_fold<'a>(&self, g: &'a Graph) -> (r: Option<&'a Fold>)
        requires
            self.ptr < g.ops.len(),
        ensures
            (r is Some) == (g.ops@[self.ptr as int] is Fold),
            r matches Some(x) ==> g.ops@[self.ptr as int] == Op::Fold(*x),
    {
        match &g.ops[self.ptr] {
            Op::Fold(x) => Some(x),
            _ => None,
        }
    }

    /// Try getting the current [Op]'s inner [Fold] for modification; `None` if it is another kind
    /// of op.
    pub fn as_fold_mut<'a>(&self, g: &'a mut Graph) -> (r: Option<&'a mut Fold>)
        requires
            self.ptr < old(g).ops.len(),
        ensures
            (r is Some) == (old(g).ops@[self.ptr as int] is Fold),
            match r {
                Some(x) => old(g).ops@[self.ptr as int] == Op::Fold(*x) && final(g).ops@ == old(g).ops@.update(
                    self.ptr as int,
                    Op::Fold(*final(x)),
                ),
                None => final(g).ops@ == old(g).ops@,
            },
            final(g).op_dropped == old(g).op_dropped,
            final(g).roots == old(g).roots,
            final(g).nodes == old(g).nodes,
            final(g).owners == old(g).owners,
            frame(*old(g), *final(g)),
    {
        let op = &mut g.ops[self.ptr];
        fold_of_mut(op)
    }

    /// Try getting the current [Op]'s inner [Vector]; `None` if it is another kind of op.
    pub fn as_vector<'a>(&self, g: &'a Graph) -> (r: Option<&'a Vector>)
        requires
            self.ptr < g.ops.len(),
        ensures
            (r is Some) == (g.ops@[self.ptr as int] is Vector),
            r matches Some(x) ==> g.ops@[self.ptr as int] == Op::Vector(*x),
    {
        match &g.ops[self.ptr] {
            Op::Vector(x) => Some(x),
            _ => None,
        }
    }

    /// Try getting the current [Op]'s inner [Vector] for modification; `None` if it is another kind
    /// of op.
    pub fn as_vector_mut<'a>(&self, g: &'a mut Graph) -> (r: Option<&'a mut Vector>)
        requires
            self.ptr < old(g).ops.len(),
        ensures
            (r is Some) == (old(g).ops@[self.ptr as int] is Vector),
            match r {
                Some(x) => old(g).ops@[self.ptr as int] == Op::Vector(*x) && final(g).ops@ == old(g).ops@.update(
                    self.ptr as int,
                    Op::Vector(*final(x)),
                ),
                None => final(g).ops@ == old(g).ops@,
            },
            final(g).op_dropped == old(g).op_dropped,
            final(g).roots == old(g).roots,
            final(g).nodes == old(g).nodes,
            final(g).owners == old(g).owners,
            frame(*old(g), *final(g)),
    {
        let op = &mut g.ops[self.ptr];
        vector_of_mut(op)
    }

    /// Try getting the current [Op]'s inner [Matrix]; `None` if it is another kind of op.
    pub fn as_matrix<'a>(&self, g: &'a Graph) -> (r: Option<&'a Matrix>)
        requires
            self.ptr < g.ops.len(),
        ensures
            (r is Some) == (g.ops@[self.ptr as int] is Matrix),
            r matches Some(x) ==> g.ops@[self.ptr as int] == Op::Matrix(*x),
    {
        match &g.ops[self.ptr] {
            Op::Matrix(x) => Some(x),
            _ => None,
        }
    }

    /// Try getting the current [Op]'s inner [Matrix] for modification; `None` if it is another kind
    /// of op.
    pub fn as_matrix_mut<'a>(&self, g: &'a mut Graph) -> (r: Option<&'a mut Matrix>)
        requires
            self.ptr < old(g).ops.len(),
        ensures
            (r is Some) == (old(g).ops@[self.ptr as int] is Matrix),
            match r {
                Some(x) => old(g).ops@[self.ptr as int] == Op::Matrix(*x) && final(g).ops@ == old(g).ops@.update(
                    self.ptr as int,
                    Op::Matrix(*final(x)),
                ),
                None => final(g).ops@ == old(g).ops@,
            },
            final(g).op_dropped == old(g).op_dropped,
            final(g).roots == old(g).roots,
            final(g).nodes == old(g).nodes,
            final(g).owners == old(g).owners,
            frame(*old(g), *final(g)),
    {
        let op = &mut g.ops[self.ptr];
        matrix_of_mut(op)
    }

    /// Try getting the current [Op]'s inner [Accessor]; `None` if it is another kind of op.
    pub fn as_accessor<'a>(&self, g: &'a Graph) -> (r: Option<&'a Accessor>)
        requires
            self.ptr < g.ops.len(),
        ensures
            (r is Some) == (g.ops@[self.ptr as int] is Accessor),
            r matches Some(x) ==> g.ops@[self.ptr as int] == Op::Accessor(*x),
    {
        match &g.ops[self.ptr] {
            Op::Accessor(x) => Some(x),
            _ => None,
        }
    }

    /// Try getting the current [Op]'s inner [Accessor] for modification; `None` if it is another kind
    /// of op.
    pub fn as_accessor_mut<'a>(&self, g: &'a mut Graph) -> (r: Option<&'a mut Accessor>)
        requires
            self.ptr < old(g).ops.len(),
        ensures
            (r is Some) == (old(g).ops@[self.ptr as int] is Accessor),
            match r {
                Some(x) => old(g).ops@[self.ptr as int] == Op::Accessor(*x) && final(g).ops@ == old(g).ops@.update(
                    self.ptr as int,
                    Op::Accessor(*final(x)),
                ),
                None => final(g).ops@ == old(g).ops@,
            },
            final(g).op_dropped == old(g).op_dropped,
            final(g).roots == old(g).roots,
            final(g).nodes == old(g).nodes,
            final(g).owners == old(g).owners,
            frame(*old(g), *final(g)),
    {
        let op = &mut g.ops[self.ptr];
        accessor_of_mut(op)
    }

    /// Try getting the current [Op]'s inner [BusOp]; `None` if it is another kind of op.
    pub fn as_bus_op<'a>(&self, g: &'a Graph) -> (r: Option<&'a BusOp>)
        requires
            self.ptr < g.ops.len(),
        ensures
            (r is Some) == (g.ops@[self.ptr as int] is BusOp),
            r matches Some(x) ==> g.ops@[self.ptr as int] == Op::BusOp(*x),
    {
        match &g.ops[self.ptr] {
            Op::BusOp(x) => Some(x),
            _ => None,
        }
    }

    /// Try getting the current [Op]'s inner [BusOp] for modification; `None` if it is another kind
    /// of op.
    pub fn as_bus_op_mut<'a>(&self, g: &'a mut Graph) -> (r: Option<&'a mut BusOp>)
        requires
            self.ptr < old(g).ops.len(),
        ensures
            (r is Some) == (old(g).ops@[self.ptr as int] is BusOp),
            match r {
                Some(x) => old(g).ops@[self.ptr as int] == Op::BusOp(*x) && final(g).ops@ == old(g).ops@.update(
                    self.ptr as int,
                    Op::BusOp(*final(x)),
                ),
                None => final(g).ops@ == old(g).ops@,
            },
            final(g).op_dropped == old(g).op_dropped,
            final(g).roots == old(g).roots,
            final(g).nodes == old(g).nodes,
            final(g).owners == old(g).owners,
            frame(*old(g), *final(g)),
    {
        let op = &mut g.ops[self.ptr];
        bus_op_of_mut(op)
    }

    /// Try getting the current [Op]'s inner [Parameter]; `None` if it is another kind of op.
    pub fn as_parameter<'a>(&self, g: &'a Graph) -> (r: Option<&'a Parameter>)
        requires
            self.ptr < g.ops.len(),
        ensures
            (r is Some) == (g.ops@[self.ptr as int] is Parameter),
            r matches Some(x) ==> g.ops@[self.ptr as int] == Op::Parameter(*x),
    {
        match &g.ops[self.ptr] {
            Op::Parameter(x) => Some(x),
            _ => None,
        }
    }

    /// Try getting the current [Op]'s inner [Parameter] for modification; `None` if it is another kind
    /// of op.
    pub fn as_parameter_mut<'a>(&self, g: &'a mut Graph) -> (r: Option<&'a mut Parameter>)
        requires
            self.ptr < old(g).ops.len(),
        ensures
            (r is Some) == (old(g).ops@[self.ptr as int] is Parameter),
            match r {
                Some(x) => old(g).ops@[self.ptr as int] == Op::Parameter(*x) && final(g).ops@ == old(g).ops@.update(
                    self.ptr as int,
                    Op::Parameter(*final(x)),
                ),
                None => final(g).ops@ == old(g).ops@,
            },
            final(g).op_dropped == old(g).op_dropped,
            final(g).roots == old(g).roots,
            final(g).nodes == old(g).nodes,
            final(g).owners == old(g).owners,
            frame(*old(g), *final(g)),
    {
        let op = &mut g.ops[self.ptr];
        parameter_of_mut(op)
    }

    /// Try getting the current [Op]'s inner [Value]; `None` if it is another kind of op.
    pub fn as_value<'a>(&self, g: &'a Graph) -> (r: Option<&'a Value>)
        requires
            self.ptr < g.ops.len(),
        ensures
            (r is Some) == (g.ops@[self.ptr as int] is Value),
            r matches Some(x) ==> g.ops@[self.ptr as int] == Op::Value(*x),
    {
        match &g.ops[self.ptr] {
            Op::Value(x) => Some(x),
            _ => None,
        }
    }

    /// Try getting the current [Op]'s inner [Value] for modification; `None` if it is another kind
    /// of op.
    pub fn as_value_mut<'a>(&self, g: &'a mut Graph) -> (r: Option<&'a mut Value>)
        requires
            self.ptr < old(g).ops.len(),
        ensures
            (r is Some) == (old(g).ops@[self.ptr as int] is Value),
            match r {
                Some(x) => old(g).ops@[self.ptr as int] == Op::Value(*x) && final(g).ops@ == old(g).ops@.update(
                    self.ptr as int,
                    Op::Value(*final(x)),
                ),
                None => final(g).ops@ == old(g).ops@,
            },
            final(g).op_dropped == old(g).op_dropped,
            final(g).roots == old(g).roots,
            final(g).nodes == old(g).nodes,
            final(g).owners == old(g).owners,
            frame(*old(g), *final(g)),
    {
        let op = &mut g.ops[self.ptr];
        value_of_mut(op)
    }

}

/// The kind of the node view, as a number.
pub open spec fn node_kind(n: Node) -> u8 {
    match n {
        Node::Function(_) => 0,
        Node::Evaluator(_) => 1,
        Node::Enf(_) => 2,
        Node::Boundary(_) => 3,
        Node::Add(_) => 4,
        Node::Sub(_) => 5,
        Node::Mul(_) => 6,
        Node::Exp(_) => 7,
        Node::If(_) => 8,
        Node::For(_) => 9,
        Node::Call(_) => 10,
        Node::Fold(_) => 11,
        Node::Vector(_) => 12,
        Node::Matrix(_) => 13,
        Node::Accessor(_) => 14,
        Node::BusOp(_) => 15,
        Node::Parameter(_) => 16,
        Node::Value(_) => 17,
        Node::Nil(_) => 18,
    }
}

fn node_kind_of(n: &Node) -> (r: u8)
    ensures
        r == node_kind(*n),
{
    match n {
        Node::Function(_) => 0,
        Node::Evaluator(_) => 1,
        Node::Enf(_) => 2,
        Node::Boundary(_) => 3,
        Node::Add(_) => 4,
        Node::Sub(_) => 5,
        Node::Mul(_) => 6,
        Node::Exp(_) => 7,
        Node::If(_) => 8,
        Node::For(_) => 9,
        Node::Call(_) => 10,
        Node::Fold(_) => 11,
        Node::Vector(_) => 12,
        Node::Matrix(_) => 13,
        Node::Accessor(_) => 14,
        Node::BusOp(_) => 15,
        Node::Parameter(_) => 16,
        Node::Value(_) => 17,
        Node::Nil(_) => 18,
    }
}

/// The kind of the owner view, as a number.
pub open spec fn owner_kind(n: Owner) -> u8 {
    match n {
        Owner::Function(_) => 0,
        Owner::Evaluator(_) => 1,
        Owner::Accessor(_) => 2,
        Owner::BusOp(_) => 3,
        Owner::Boundary(_) => 4,
        Owner::Vector(_) => 5,
        Owner::Matrix(_) => 6,
        Owner::Call(_) => 7,
        Owner::Fold(_) => 8,
        Owner::Add(_) => 9,
        Owner::Sub(_) => 10,
        Owner::Mul(_) => 11,
        Owner::Exp(_) => 12,
        Owner::Enf(_) => 13,
        Owner::For(_) => 14,
        Owner::If(_) => 15,
        Owner::Nil(_) => 16,
    }
}

fn owner_kind_of(n: &Owner) -> (r: u8)
    ensures
        r == owner_kind(*n),
{
    match n {
        Owner::Function(_) => 0,
        Owner::Evaluator(_) => 1,
        Owner::Accessor(_) => 2,
        Owner::BusOp(_) => 3,
        Owner::Boundary(_) => 4,
        Owner::Vector(_) => 5,
        Owner::Matrix(_) => 6,
        Owner::Call(_) => 7,
        Owner::Fold(_) => 8,
        Owner::Add(_) => 9,
        Owner::Sub(_) => 10,
        Owner::Mul(_) => 11,
        Owner::Exp(_) => 12,
        Owner::Enf(_) => 13,
        Owner::For(_) => 14,
        Owner::If(_) => 15,
        Owner::Nil(_) => 16,
    }
}

/// The live op or root a view names: `(false, p)` for op `p`, `(true, p)` for root `p`; `None`
/// where it names no live one.
pub open spec fn view_target(g: Graph, op_ptr: Option<usize>, root_ptr: Option<usize>) -> Option<(bool, usize)> {
    match op_ptr {
        Some(p) => if g.op_live(p) {
            Some((false, p))
        } else {
            None
        },
        None => match root_ptr {
            Some(p) => if g.root_live(p) {
                Some((true, p))
            } else {
                None
            },
            None => None,
        },
    }
}

fn view_target_of(g: &Graph, op_ptr: Option<usize>, root_ptr: Option<usize>) -> (r: Option<(bool, usize)>)
    requires
        g.wf(),
    ensures
        r == view_target(*g, op_ptr, root_ptr),
{
    match op_ptr {
        Some(p) => if p < g.ops.len() && !g.op_dropped[p] {
            Some((false, p))
        } else {
            None
        },
        None => match root_ptr {
            Some(p) => if p < g.roots.len() && !g.root_dropped[p] {
                Some((true, p))
            } else {
                None
            },
            None => None,
        },
    }
}

/// Two targets are the same.
fn same_target(a: Option<(bool, usize)>, b: Option<(bool, usize)>) -> (r: bool)
    ensures
        r == (a == b),
{
    match (a, b) {
        (Some(x), Some(y)) => x.0 == y.0 && x.1 == y.1,
        (None, None) => true,
        _ => false,
    }
}

/// Two node views are equal: of the same kind, and naming the same live op or root (or both one
/// that no longer exists); two empty views are equal.
pub open spec fn same_node(g: Graph, a: Node, b: Node) -> bool {
    node_kind(a) == node_kind(b) && (a is Nil || view_target(g, node_op_ptr(a), node_root_ptr(a)) == view_target(
        g,
        node_op_ptr(b),
        node_root_ptr(b),
    ))
}

/// Two owner views are equal: of the same kind, and naming the same live op or root (or both one
/// that no longer exists); two empty views are equal.
pub open spec fn same_owner(g: Graph, a: Owner, b: Owner) -> bool {
    owner_kind(a) == owner_kind(b) && (a is Nil || view_target(g, owner_op_ptr(a), owner_root_ptr(a)) == view_target(
        g,
        owner_op_ptr(b),
        owner_root_ptr(b),
    ))
}

impl Node {
    /// Are the two node views equal: of the same kind, and naming the same live op or root (or
    /// both one that no longer exists)?
    pub fn eq(&self, g: &Graph, other: &Node) -> (r: bool)
        requires
            g.wf(),
        ensures
            r == same_node(*g, *self, *other),
    {
        if node_kind_of(self) != node_kind_of(other) {
            return false;
        }
        if let Node::Nil(_) = self {
            return true;
        }
        let a = view_target_of(g, node_op_ptr_of(self), node_root_ptr_of(self));
        let b = view_target_of(g, node_op_ptr_of(other), node_root_ptr_of(other));
        same_target(a, b)
    }
}

impl Owner {
    /// Are the two owner views equal: of the same kind, and naming the same live op or root (or
    /// both one that no longer exists)?
    pub fn eq(&self, g: &Graph, other: &Owner) -> (r: bool)
        requires
            g.wf(),
        ensures
            r == same_owner(*g, *self, *other),
    {
        if owner_kind_of(self) != owner_kind_of(other) {
            return false;
        }
        if let Owner::Nil(_) = self {
            return true;
        }
        let a = view_target_of(g, owner_op_ptr_of(self), owner_root_ptr_of(self));
        let b = view_target_of(g, owner_op_ptr_of(other), owner_root_ptr_of(other));
        same_target(a, b)
    }
}

fn function_of_mut(root: &mut Root) -> (r: Option<&mut Function>)
    ensures
        match r {
            Some(x) => *old(root) == Root::Function(*x) && *final(root) == Root::Function(*final(x)),
            None => *final(root) == *old(root) && !(*old(root) is Function),
        },
{
    match root {
        Root::Function(x) => Some(x),
        _ => None,
    }
}

fn evaluator_of_mut(root: &mut Root) -> (r: Option<&mut Evaluator>)
    ensures
        match r {
            Some(x) => *old(root) == Root::Evaluator(*x) && *final(root) == Root::Evaluator(*final(x)),
            None => *final(root) == *old(root) && !(*old(root) is Evaluator),
        },
{
    match root {
        Root::Evaluator(x) => Some(x),
        _ => None,
    }
}

fn enf_of_mut(op: &mut Op) -> (r: Option<&mut Enf>)
    ensures
        match r {
            Some(x) => *old(op) == Op::Enf(*x) && *final(op) == Op::Enf(*final(x)),
            None => *final(op) == *old(op) && !(*old(op) is Enf),
        },
{
    match op {
        Op::Enf(x) => Some(x),
        _ => None,
    }
}

fn boundary_of_mut(op: &mut Op) -> (r: Option<&mut Boundary>)
    ensures
        match r {
            Some(x) => *old(op) == Op::Boundary(*x) && *final(op) == Op::Boundary(*final(x)),
            None => *final(op) == *old(op) && !(*old(op) is Boundary),
        },
{
    match op {
        Op::Boundary(x) => Some(x),
        _ => None,
    }
}

fn add_of_mut(op: &mut Op) -> (r: Option<&mut Add>)
    ensures
        match r {
            Some(x) => *old(op) == Op::Add(*x) && *final(op) == Op::Add(*final(x)),
            None => *final(op) == *old(op) && !(*old(op) is Add),
        },
{
    match op {
        Op::Add(x) => Some(x),
        _ => None,
    }
}

fn sub_of_mut(op: &mut Op) -> (r: Option<&mut Sub>)
    ensures
        match r {
            Some(x) => *old(op) == Op::Sub(*x) && *final(op) == Op::Sub(*final(x)),
            None => *final(op) == *old(op) && !(*old(op) is Sub),
        },
{
    match op {
        Op::Sub(x) => Some(x),
        _ => None,
    }
}

fn mul_of_mut(op: &mut Op) -> (r: Option<&mut Mul>)
    ensures
        match r {
            Some(x) => *old(op) == Op::Mul(*x) && *final(op) == Op::Mul(*final(x)),
            None => *final(op) == *old(op) && !(*old(op) is Mul),
        },
{
    match op {
        Op::Mul(x) => Some(x),
        _ => None,
    }
}

fn exp_of_mut(op: &mut Op) -> (r: Option<&mut Exp>)
    ensures
        match r {
            Some(x) => *old(op) == Op::Exp(*x) && *final(op) == Op::Exp(*final(x)),
            None => *final(op) == *old(op) && !(*old(op) is Exp),
        },
{
    match op {
        Op::Exp(x) => Some(x),
        _ => None,
    }
}

fn if_of_mut(op: &mut Op) -> (r: Option<&mut If>)
    ensures
        match r {
            Some(x) => *old(op) == Op::If(*x) && *final(op) == Op::If(*final(x)),
            None => *final(op) == *old(op) && !(*old(op) is If),
        },
{
    match op {
        Op::If(x) => Some(x),
        _ => None,
    }
}

fn for_of_mut(op: &mut Op) -> (r: Option<&mut For>)
    ensures
        match r {
            Some(x) => *old(op) == Op::For(*x) && *final(op) == Op::For(*final(x)),
            None => *final(op) == *old(op) && !(*old(op) is For),
        },
{
    match op {
        Op::For(x) => Some(x),
        _ => None,
    }
}

fn call_of_mut(op: &mut Op) -> (r: Option<&mut Call>)
    ensures
        match r {
            Some(x) => *old(op) == Op::Call(*x) && *final(op) == Op::Call(*final(x)),
            None => *final(op) == *old(op) && !(*old(op) is Call),
        },
{
    match op {
        Op::Call(x) => Some(x),
        _ => None,
    }
}

fn fold_of_mut(op: &mut Op) -> (r: Option<&mut Fold>)
    ensures
        match r {
            Some(x) => *old(op) == Op::Fold(*x) && *final(op) == Op::Fold(*final(x)),
            None => *final(op) == *old(op) && !(*old(op) is Fold),
        },
{
    match op {
        Op::Fold(x) => Some(x),
        _ => None,
    }
}

fn vector_of_mut(op: &mut Op) -> (r: Option<&mut Vector>)
    ensures
        match r {
            Some(x) => *old(op) == Op::Vector(*x) && *final(op) == Op::Vector(*final(x)),
            None => *final(op) == *old(op) && !(*old(op) is Vector),
        },
{
    match op {
        Op::Vector(x) => Some(x),
        _ => None,
    }
}

fn matrix_of_mut(op: &mut Op) -> (r: Option<&mut Matrix>)
    ensures
        match r {
            Some(x) => *old(op) == Op::Matrix(*x) && *final(op) == Op::Matrix(*final(x)),
            None => *final(op) == *old(op) && !(*old(op) is Matrix),
        },
{
    match op {
        Op::Matrix(x) => Some(x),
        _ => None,
    }
}

fn accessor_of_mut(op: &mut Op) -> (r: Option<&mut Accessor>)
    ensures
        match r {
            Some(x) => *old(op) == Op::Accessor(*x) && *final(op) == Op::Accessor(*final(x)),
            None => *final(op) == *old(op) && !(*old(op) is Accessor),
        },
{
    match op {
        Op::Accessor(x) => Some(x),
        _ => None,
    }
}

fn bus_op_of_mut(op: &mut Op) -> (r: Option<&mut BusOp>)
    ensures
        match r {
            Some(x) => *old(op) == Op::BusOp(*x) && *final(op) == Op::BusOp(*final(x)),
            None => *final(op) == *old(op) && !(*old(op) is BusOp),
        },
{
    match op {
        Op::BusOp(x) => Some(x),
        _ => None,
    }
}

fn parameter_of_mut(op: &mut Op) -> (r: Option<&mut Parameter>)
    ensures
        match r {
            Some(x) => *old(op) == Op::Parameter(*x) && *final(op) == Op::Parameter(*final(x)),
            None => *final(op) == *old(op) && !(*old(op) is Parameter),
        },
{
    match op {
        Op::Parameter(x) => Some(x),
        _ => None,
    }
}

fn value_of_mut(op: &mut Op) -> (r: Option<&mut Value>)
    ensures
        match r {
            Some(x) => *old(op) == Op::Value(*x) && *final(op) == Op::Value(*final(x)),
            None => *final(op) == *old(op) && !(*old(op) is Value),
        },
{
    match op {
        Op::Value(x) => Some(x),
        _ => None,
    }
}

} // verus!
