//! The nodes of the MIR graph.
//!
//! [Op]s are the operations of constraint bodies, [Root]s the functions and evaluators. A [Node]
//! names any of them, an [Owner] any of them that has children; both are kept once per op or root
//! (as a [Singleton] in it) and carry a [BackLink] to it.
use vstd::prelude::*;

use crate::link::{BackLink, Link, Singleton};
use crate::owner_id::OwnerId;
use crate::value::{BoundaryKind, BusType, Identifier, MirType, SourceSpan, SpannedMirValue};

verus! {

/// The operator of a fold.
#[derive(Copy, Clone, PartialEq, Eq, Structural, Debug)]
pub enum FoldOperator {
    Add,
    Mul,
    Nil,
}

/// How an accessor indexes its indexable.
#[derive(Debug)]
pub enum MirAccessType {
    Default,
    Index(Link<Op>),
    Matrix(Link<Op>, Link<Op>),
}

impl Clone for MirAccessType {
    fn clone(&self) -> (r: Self)
        ensures
            r == *self,
    {
        match self {
            MirAccessType::Default => MirAccessType::Default,
            MirAccessType::Index(i) => MirAccessType::Index(*i),
            MirAccessType::Matrix(a, b) => MirAccessType::Matrix(*a, *b),
        }
    }
}

/// The kind of a bus operation.
#[derive(Copy, Clone, PartialEq, Eq, Structural, Debug)]
pub enum BusOpKind {
    Insert,
    Remove,
}

/// An arm of an `if`: its expression applies where its condition holds.
#[derive(Debug)]
pub struct MatchArm {
    pub condition: Link<Op>,
    pub expr: Link<Op>,
}

impl Clone for MatchArm {
    fn clone(&self) -> (r: Self)
        ensures
            r == *self,
    {
        MatchArm { condition: self.condition, expr: self.expr }
    }
}

impl Copy for MatchArm {}

impl MatchArm {
    pub fn new(expr: Link<Op>, condition: Link<Op>) -> (r: Self)
        ensures
            r.expr == expr,
            r.condition == condition,
    {
        MatchArm { condition, expr }
    }
}

/// The children of a list of arms: condition then expression, arm by arm.
pub open spec fn arms_children(arms: Seq<MatchArm>) -> Seq<Link<Op>>
    decreases arms.len(),
{
    if arms.len() == 0 {
        seq![]
    } else {
        arms_children(arms.drop_last()) + seq![arms.last().condition, arms.last().expr]
    }
}

/// The index operands of an access.
pub open spec fn access_children(a: MirAccessType) -> Seq<Link<Op>> {
    match a {
        MirAccessType::Default => seq![],
        MirAccessType::Index(i) => seq![i],
        MirAccessType::Matrix(r, c) => seq![r, c],
    }
}

fn push_all(r: &mut Vec<Link<Op>>, xs: &Vec<Link<Op>>)
    ensures
        final(r)@ == old(r)@ + xs@,
{
    let mut i: usize = 0;
    while i < xs.len()
        invariant
            i <= xs.len(),
            r@ == old(r)@ + xs@.take(i as int),
        decreases xs.len() - i,
    {
        r.push(xs[i]);
        assert(r@ =~= old(r)@ + xs@.take(i + 1));
        i = i + 1;
    }
    assert(xs@.take(xs.len() as int) =~= xs@);
}

fn push_arms(r: &mut Vec<Link<Op>>, arms: &Vec<MatchArm>)
    ensures
        final(r)@ == old(r)@ + arms_children(arms@),
{
    let mut i: usize = 0;
    while i < arms.len()
        invariant
            i <= arms.len(),
            r@ == old(r)@ + arms_children(arms@.take(i as int)),
        decreases arms.len() - i,
    {
        assert(arms@.take(i + 1).drop_last() =~= arms@.take(i as int));
        r.push(arms[i].condition);
        r.push(arms[i].expr);
        assert(r@ =~= old(r)@ + arms_children(arms@.take(i + 1)));
        i = i + 1;
    }
    assert(arms@.take(arms.len() as int) =~= arms@);
}

fn push_access(r: &mut Vec<Link<Op>>, a: &MirAccessType)
    ensures
        final(r)@ == old(r)@ + access_children(*a),
{
    match a {
        MirAccessType::Default => {
            assert(old(r)@ + access_children(*a) =~= old(r)@);
        },
        MirAccessType::Index(i) => {
            r.push(*i);
            assert(r@ =~= old(r)@ + access_children(*a));
        },
        MirAccessType::Matrix(row, col) => {
            r.push(*row);
            r.push(*col);
            assert(r@ =~= old(r)@ + access_children(*a));
        },
    }
}

/// A bus: the columns and latches of its insertions and removals, and its boundary values.
#[derive(Debug)]
pub struct Bus {
    /// Identifier of the bus
    pub name: Option<Identifier>,
    /// Type of bus
    pub bus_type: BusType,
    /// Values stored in the bus; joined with randomness in the bus constraint equation.
    pub columns: Vec<Link<Op>>,
    /// Selectors denoting when a value is present
    pub latches: Vec<Link<Op>>,
    pub first: Link<Op>,
    pub last: Link<Op>,
    pub span: SourceSpan,
}


/// An enforced constraint: `enf expr = 0`.
#[derive(Debug)]
pub struct Enf {
    pub parents: Vec<BackLink<Owner>>,
    pub expr: Link<Op>,
    pub _node: Singleton<Node>,
    pub _owner: Singleton<Owner>,
    pub span: SourceSpan,
}

/// The value of an expression at the first or last row.
#[derive(Debug)]
pub struct Boundary {
    pub parents: Vec<BackLink<Owner>>,
    pub kind: BoundaryKind,
    pub expr: Link<Op>,
    pub _node: Singleton<Node>,
    pub _owner: Singleton<Owner>,
    pub span: SourceSpan,
}

/// The sum of two expressions.
#[derive(Debug)]
pub struct Add {
    pub parents: Vec<BackLink<Owner>>,
    pub lhs: Link<Op>,
    pub rhs: Link<Op>,
    pub _node: Singleton<Node>,
    pub _owner: Singleton<Owner>,
    pub span: SourceSpan,
}

/// The difference of two expressions.
#[derive(Debug)]
pub struct Sub {
    pub parents: Vec<BackLink<Owner>>,
    pub lhs: Link<Op>,
    pub rhs: Link<Op>,
    pub _node: Singleton<Node>,
    pub _owner: Singleton<Owner>,
    pub span: SourceSpan,
}

/// The product of two expressions.
#[derive(Debug)]
pub struct Mul {
    pub parents: Vec<BackLink<Owner>>,
    pub lhs: Link<Op>,
    pub rhs: Link<Op>,
    pub _node: Singleton<Node>,
    pub _owner: Singleton<Owner>,
    pub span: SourceSpan,
}

/// An expression raised to a power.
#[derive(Debug)]
pub struct Exp {
    pub parents: Vec<BackLink<Owner>>,
    pub lhs: Link<Op>,
    pub rhs: Link<Op>,
    pub _node: Singleton<Node>,
    pub _owner: Singleton<Owner>,
    pub span: SourceSpan,
}

/// A conditional: the arms whose condition holds.
#[derive(Debug)]
pub struct If {
    pub parents: Vec<BackLink<Owner>>,
    pub match_arms: Vec<MatchArm>,
    pub _node: Singleton<Node>,
    pub _owner: Singleton<Owner>,
    pub span: SourceSpan,
}

/// A list comprehension over some iterators, with an optional selector.
#[derive(Debug)]
pub struct For {
    pub parents: Vec<BackLink<Owner>>,
    pub iterators: Vec<Link<Op>>,
    pub expr: Link<Op>,
    pub selector: Option<Link<Op>>,
    pub owner_id: OwnerId,
    pub _node: Singleton<Node>,
    pub _owner: Singleton<Owner>,
    pub span: SourceSpan,
}

/// A call of a function or an evaluator.
#[derive(Debug)]
pub struct Call {
    pub parents: Vec<BackLink<Owner>>,
    pub function: Link<Root>,
    pub arguments: Vec<Link<Op>>,
    pub _node: Singleton<Node>,
    pub _owner: Singleton<Owner>,
    pub span: SourceSpan,
}

/// A fold (sum or product) over an iterator.
#[derive(Debug)]
pub struct Fold {
    pub parents: Vec<BackLink<Owner>>,
    pub iterator: Link<Op>,
    pub operator: FoldOperator,
    pub initial_value: Link<Op>,
    pub _node: Singleton<Node>,
    pub _owner: Singleton<Owner>,
    pub span: SourceSpan,
}

/// A vector of expressions.
#[derive(Debug)]
pub struct Vector {
    pub parents: Vec<BackLink<Owner>>,
    pub elements: Vec<Link<Op>>,
    pub _node: Singleton<Node>,
    pub _owner: Singleton<Owner>,
    pub span: SourceSpan,
}

/// A matrix of expressions, given by its rows.
#[derive(Debug)]
pub struct Matrix {
    pub parents: Vec<BackLink<Owner>>,
    pub elements: Vec<Link<Op>>,
    pub _node: Singleton<Node>,
    pub _owner: Singleton<Owner>,
    pub span: SourceSpan,
}

/// An access into a vector or matrix, or a value with a row offset.
#[derive(Debug)]
pub struct Accessor {
    pub parents: Vec<BackLink<Owner>>,
    pub indexable: Link<Op>,
    pub access_type: MirAccessType,
    pub offset: usize,
    pub _node: Singleton<Node>,
    pub _owner: Singleton<Owner>,
    pub span: SourceSpan,
}

/// An insertion into or removal from a bus.
#[derive(Debug)]
pub struct BusOp {
    pub parents: Vec<BackLink<Owner>>,
    pub bus: Link<Bus>,
    pub kind: BusOpKind,
    pub args: Vec<Link<Op>>,
    pub latch: Link<Op>,
    pub _node: Singleton<Node>,
    pub _owner: Singleton<Owner>,
    pub span: SourceSpan,
}

/// A parameter of a function, evaluator, `if` or `for`.
#[derive(Debug)]
pub struct Parameter {
    pub parents: Vec<BackLink<Owner>>,
    pub owner_id: OwnerId,
    pub position: usize,
    pub ty: MirType,
    pub is_for_output: bool,
    pub _node: Singleton<Node>,
    pub span: SourceSpan,
}

/// A known value.
#[derive(Debug)]
pub struct Value {
    pub parents: Vec<BackLink<Owner>>,
    pub value: SpannedMirValue,
    pub _node: Singleton<Node>,
    pub span: SourceSpan,
}

/// The operations of constraint bodies, and the leaves of the graph.
#[derive(Debug)]
pub enum Op {
    Enf(Enf),
    Boundary(Boundary),
    Add(Add),
    Sub(Sub),
    Mul(Mul),
    Exp(Exp),
    If(If),
    For(For),
    Call(Call),
    Fold(Fold),
    Vector(Vector),
    Matrix(Matrix),
    Accessor(Accessor),
    BusOp(BusOp),
    Parameter(Parameter),
    Value(Value),
    Nil(SourceSpan),
}

/// A function definition.
#[derive(Debug)]
pub struct Function {
    /// Parameters of the function
    pub parameters: Vec<Link<Op>>,
    /// Return type of the function
    pub return_type: Link<Op>,
    /// Operations contained in the function
    pub body: Vec<Link<Op>>,
    pub _node: Singleton<Node>,
    pub _owner: Singleton<Owner>,
    pub span: SourceSpan,
}

/// An evaluator definition.
#[derive(Debug)]
pub struct Evaluator {
    /// Parameters of the evaluator, grouped by trace segment
    pub parameters: Vec<Vec<Link<Op>>>,
    /// Operations contained in the evaluator
    pub body: Vec<Link<Op>>,
    pub _node: Singleton<Node>,
    pub _owner: Singleton<Owner>,
    pub span: SourceSpan,
}

/// The root nodes of the MIR graph: the top level functions and evaluators.
#[derive(Debug)]
pub enum Root {
    Function(Function),
    Evaluator(Evaluator),
    Nil(SourceSpan),
}

/// Any node of the graph, by a weak handle on it.
/// `Nil` is a node that is not initialized, or whose op or root no longer exists.
#[derive(Debug)]
pub enum Node {
    Function(BackLink<Root>),
    Evaluator(BackLink<Root>),
    Enf(BackLink<Op>),
    Boundary(BackLink<Op>),
    Add(BackLink<Op>),
    Sub(BackLink<Op>),
    Mul(BackLink<Op>),
    Exp(BackLink<Op>),
    If(BackLink<Op>),
    For(BackLink<Op>),
    Call(BackLink<Op>),
    Fold(BackLink<Op>),
    Vector(BackLink<Op>),
    Matrix(BackLink<Op>),
    Accessor(BackLink<Op>),
    BusOp(BackLink<Op>),
    Parameter(BackLink<Op>),
    Value(BackLink<Op>),
    Nil(SourceSpan),
}

/// Any node of the graph that can own ops, by a weak handle on it.
#[derive(Debug)]
pub enum Owner {
    Function(BackLink<Root>),
    Evaluator(BackLink<Root>),
    Accessor(BackLink<Op>),
    BusOp(BackLink<Op>),
    Boundary(BackLink<Op>),
    Vector(BackLink<Op>),
    Matrix(BackLink<Op>),
    Call(BackLink<Op>),
    Fold(BackLink<Op>),
    Add(BackLink<Op>),
    Sub(BackLink<Op>),
    Mul(BackLink<Op>),
    Exp(BackLink<Op>),
    Enf(BackLink<Op>),
    For(BackLink<Op>),
    If(BackLink<Op>),
    Nil(SourceSpan),
}

impl Clone for Node {
    fn clone(&self) -> (r: Self)
        ensures
            r == *self,
    {
        match self {
            Node::Function(b) => Node::Function(*b),
            Node::Evaluator(b) => Node::Evaluator(*b),
            Node::Enf(b) => Node::Enf(*b),
            Node::Boundary(b) => Node::Boundary(*b),
            Node::Add(b) => Node::Add(*b),
            Node::Sub(b) => Node::Sub(*b),
            Node::Mul(b) => Node::Mul(*b),
            Node::Exp(b) => Node::Exp(*b),
            Node::If(b) => Node::If(*b),
            Node::For(b) => Node::For(*b),
            Node::Call(b) => Node::Call(*b),
            Node::Fold(b) => Node::Fold(*b),
            Node::Vector(b) => Node::Vector(*b),
            Node::Matrix(b) => Node::Matrix(*b),
            Node::Accessor(b) => Node::Accessor(*b),
            Node::BusOp(b) => Node::BusOp(*b),
            Node::Parameter(b) => Node::Parameter(*b),
            Node::Value(b) => Node::Value(*b),
            Node::Nil(s) => Node::Nil(*s),
        }
    }
}

impl Clone for Owner {
    fn clone(&self) -> (r: Self)
        ensures
            r == *self,
    {
        match self {
            Owner::Function(b) => Owner::Function(*b),
            Owner::Evaluator(b) => Owner::Evaluator(*b),
            Owner::Accessor(b) => Owner::Accessor(*b),
            Owner::BusOp(b) => Owner::BusOp(*b),
            Owner::Boundary(b) => Owner::Boundary(*b),
            Owner::Vector(b) => Owner::Vector(*b),
            Owner::Matrix(b) => Owner::Matrix(*b),
            Owner::Call(b) => Owner::Call(*b),
            Owner::Fold(b) => Owner::Fold(*b),
            Owner::Add(b) => Owner::Add(*b),
            Owner::Sub(b) => Owner::Sub(*b),
            Owner::Mul(b) => Owner::Mul(*b),
            Owner::Exp(b) => Owner::Exp(*b),
            Owner::Enf(b) => Owner::Enf(*b),
            Owner::For(b) => Owner::For(*b),
            Owner::If(b) => Owner::If(*b),
            Owner::Nil(s) => Owner::Nil(*s),
        }
    }
}

/// The children of an op, in order.
pub open spec fn op_children(op: Op) -> Seq<Link<Op>> {
    match op {
        Op::Enf(x) => seq![x.expr],
        Op::Boundary(x) => seq![x.expr],
        Op::Add(x) => seq![x.lhs] + seq![x.rhs],
        Op::Sub(x) => seq![x.lhs] + seq![x.rhs],
        Op::Mul(x) => seq![x.lhs] + seq![x.rhs],
        Op::Exp(x) => seq![x.lhs] + seq![x.rhs],
        Op::If(x) => arms_children(x.match_arms@),
        Op::For(x) => x.iterators@ + seq![x.expr] + (match x.selector { Some(s) => seq![s], None => seq![] }),
        Op::Call(x) => x.arguments@,
        Op::Fold(x) => seq![x.iterator] + seq![x.initial_value],
        Op::Vector(x) => x.elements@,
        Op::Matrix(x) => x.elements@,
        Op::Accessor(x) => seq![x.indexable] + access_children(x.access_type),
        Op::BusOp(x) => x.args@ + seq![x.latch],
        Op::Parameter(x) => seq![],
        Op::Value(x) => seq![],
        Op::Nil(_) => seq![],
    }
}

/// The parents of an op.
pub open spec fn op_parents(op: Op) -> Seq<BackLink<Owner>> {
    match op {
        Op::Enf(x) => x.parents@,
        Op::Boundary(x) => x.parents@,
        Op::Add(x) => x.parents@,
        Op::Sub(x) => x.parents@,
        Op::Mul(x) => x.parents@,
        Op::Exp(x) => x.parents@,
        Op::If(x) => x.parents@,
        Op::For(x) => x.parents@,
        Op::Call(x) => x.parents@,
        Op::Fold(x) => x.parents@,
        Op::Vector(x) => x.parents@,
        Op::Matrix(x) => x.parents@,
        Op::Accessor(x) => x.parents@,
        Op::BusOp(x) => x.parents@,
        Op::Parameter(x) => x.parents@,
        Op::Value(x) => x.parents@,
        Op::Nil(_) => seq![],
    }
}

/// Is the op the placeholder `None`?
pub open spec fn is_none_op(op: Op) -> bool {
    op is Nil
}

/// The slots named by a list of weak handles.
pub open spec fn parent_ptrs(ps: Seq<BackLink<Owner>>) -> Seq<usize> {
    ps.map_values(|p: BackLink<Owner>| p.ptr)
}

/// A node that has children.
pub trait Parent {
    type Child;

    /// The children of the current node.
    fn children(&self) -> Vec<Link<Self::Child>>;
}

/// A node that has parents.
pub trait Child {
    type Parent;

    /// The parents of the current node.
    fn get_parents(&self) -> Vec<BackLink<Self::Parent>>;

    /// Add a parent to the current node.
    fn add_parent(&mut self, parent: Link<Self::Parent>);

    /// Remove a parent from the current node.
    fn remove_parent(&mut self, parent: Link<Self::Parent>);
}

/// A node kind with a builder: `builder()` gives the builder with no field set.
pub trait Builder {
    type Empty;

    /// A new builder with no field set.
    fn builder() -> Self::Empty;
}

/// The parents other than `parent`, in order.
pub open spec fn without_parent(ps: Seq<BackLink<Owner>>, parent: usize) -> Seq<BackLink<Owner>> {
    ps.filter(|p: BackLink<Owner>| p.ptr != parent)
}

fn remove_from(ps: &mut Vec<BackLink<Owner>>, parent: usize)
    ensures
        final(ps)@ == without_parent(old(ps)@, parent),
{
    let ghost orig = old(ps)@;
    let mut kept: Vec<BackLink<Owner>> = Vec::new();
    let mut i: usize = 0;
    while i < ps.len()
        invariant
            ps@ == orig,
            i <= ps.len(),
            kept@ == without_parent(orig.take(i as int), parent),
        decreases ps.len() - i,
    {
        let p = ps[i];
        proof {
            assert(orig.take(i + 1).drop_last() =~= orig.take(i as int));
            reveal_with_fuel(Seq::filter, 1);
        }
        if p.ptr != parent {
            kept.push(p);
        }
        i = i + 1;
    }
    assert(orig.take(orig.len() as int) =~= orig);
    *ps = kept;
}

impl Parent for Op {
    type Child = Op;

    fn children(&self) -> (r: Vec<Link<Op>>)
        ensures
            r@ == op_children(*self),
    {
        match self {
            Op::Enf(x) => {
                let mut r: Vec<Link<Op>> = Vec::new();
                r.push(x.expr);
                assert(r@ =~= op_children(*self));
                r
            },
            Op::Boundary(x) => {
                let mut r: Vec<Link<Op>> = Vec::new();
                r.push(x.expr);
                assert(r@ =~= op_children(*self));
                r
            },
            Op::Add(x) => {
                let mut r: Vec<Link<Op>> = Vec::new();
                r.push(x.lhs);
                r.push(x.rhs);
                assert(r@ =~= op_children(*self));
                r
            },
            Op::Sub(x) => {
                let mut r: Vec<Link<Op>> = Vec::new();
                r.push(x.lhs);
                r.push(x.rhs);
                assert(r@ =~= op_children(*self));
                r
            },
            Op::Mul(x) => {
                let mut r: Vec<Link<Op>> = Vec::new();
                r.push(x.lhs);
                r.push(x.rhs);
                assert(r@ =~= op_children(*self));
                r
            },
            Op::Exp(x) => {
                let mut r: Vec<Link<Op>> = Vec::new();
                r.push(x.lhs);
                r.push(x.rhs);
                assert(r@ =~= op_children(*self));
                r
            },
            Op::If(x) => {
                let mut r: Vec<Link<Op>> = Vec::new();
                push_arms(&mut r, &x.match_arms);
                assert(r@ =~= op_children(*self));
                r
            },
            Op::For(x) => {
                let mut r: Vec<Link<Op>> = Vec::new();
                push_all(&mut r, &x.iterators);
                r.push(x.expr);
                if let Some(s) = x.selector { r.push(s); }
                assert(r@ =~= op_children(*self));
                r
            },
            Op::Call(x) => {
                let mut r: Vec<Link<Op>> = Vec::new();
                push_all(&mut r, &x.arguments);
                assert(r@ =~= op_children(*self));
                r
            },
            Op::Fold(x) => {
                let mut r: Vec<Link<Op>> = Vec::new();
                r.push(x.iterator);
                r.push(x.initial_value);
                assert(r@ =~= op_children(*self));
                r
            },
            Op::Vector(x) => {
                let mut r: Vec<Link<Op>> = Vec::new();
                push_all(&mut r, &x.elements);
                assert(r@ =~= op_children(*self));
                r
            },
            Op::Matrix(x) => {
                let mut r: Vec<Link<Op>> = Vec::new();
                push_all(&mut r, &x.elements);
                assert(r@ =~= op_children(*self));
                r
            },
            Op::Accessor(x) => {
                let mut r: Vec<Link<Op>> = Vec::new();
                r.push(x.indexable);
                push_access(&mut r, &x.access_type);
                assert(r@ =~= op_children(*self));
                r
            },
            Op::BusOp(x) => {
                let mut r: Vec<Link<Op>> = Vec::new();
                push_all(&mut r, &x.args);
                r.push(x.latch);
                assert(r@ =~= op_children(*self));
                r
            },
            Op::Parameter(_x) => Vec::new(),
            Op::Value(_x) => Vec::new(),
            Op::Nil(_) => Vec::new(),
        }
    }
}

impl Child for Op {
    type Parent = Owner;

    fn get_parents(&self) -> (r: Vec<BackLink<Owner>>)
        ensures
            r@ == op_parents(*self),
    {
        match self {
            Op::Enf(x) => x.parents.clone(),
            Op::Boundary(x) => x.parents.clone(),
            Op::Add(x) => x.parents.clone(),
            Op::Sub(x) => x.parents.clone(),
            Op::Mul(x) => x.parents.clone(),
            Op::Exp(x) => x.parents.clone(),
            Op::If(x) => x.parents.clone(),
            Op::For(x) => x.parents.clone(),
            Op::Call(x) => x.parents.clone(),
            Op::Fold(x) => x.parents.clone(),
            Op::Vector(x) => x.parents.clone(),
            Op::Matrix(x) => x.parents.clone(),
            Op::Accessor(x) => x.parents.clone(),
            Op::BusOp(x) => x.parents.clone(),
            Op::Parameter(x) => x.parents.clone(),
            Op::Value(x) => x.parents.clone(),
            Op::Nil(_) => Vec::new(),
        }
    }

    fn add_parent(&mut self, parent: Link<Owner>)
        ensures
            parent_ptrs(op_parents(*final(self))) == (if is_none_op(*old(self)) {
                seq![]
            } else {
                parent_ptrs(op_parents(*old(self))).push(parent.ptr)
            }),
            same_but_parents(*old(self), *final(self)),
    {
        match self {
            Op::Enf(x) => x.parents.push(parent.downgrade()),
            Op::Boundary(x) => x.parents.push(parent.downgrade()),
            Op::Add(x) => x.parents.push(parent.downgrade()),
            Op::Sub(x) => x.parents.push(parent.downgrade()),
            Op::Mul(x) => x.parents.push(parent.downgrade()),
            Op::Exp(x) => x.parents.push(parent.downgrade()),
            Op::If(x) => x.parents.push(parent.downgrade()),
            Op::For(x) => x.parents.push(parent.downgrade()),
            Op::Call(x) => x.parents.push(parent.downgrade()),
            Op::Fold(x) => x.parents.push(parent.downgrade()),
            Op::Vector(x) => x.parents.push(parent.downgrade()),
            Op::Matrix(x) => x.parents.push(parent.downgrade()),
            Op::Accessor(x) => x.parents.push(parent.downgrade()),
            Op::BusOp(x) => x.parents.push(parent.downgrade()),
            Op::Parameter(x) => x.parents.push(parent.downgrade()),
            Op::Value(x) => x.parents.push(parent.downgrade()),
            Op::Nil(_) => {},
        }
    }

    fn remove_parent(&mut self, parent: Link<Owner>)
        ensures
            op_parents(*final(self)) == without_parent(op_parents(*old(self)), parent.ptr),
            same_but_parents(*old(self), *final(self)),
    {
        match self {
            Op::Enf(x) => remove_from(&mut x.parents, parent.ptr),
            Op::Boundary(x) => remove_from(&mut x.parents, parent.ptr),
            Op::Add(x) => remove_from(&mut x.parents, parent.ptr),
            Op::Sub(x) => remove_from(&mut x.parents, parent.ptr),
            Op::Mul(x) => remove_from(&mut x.parents, parent.ptr),
            Op::Exp(x) => remove_from(&mut x.parents, parent.ptr),
            Op::If(x) => remove_from(&mut x.parents, parent.ptr),
            Op::For(x) => remove_from(&mut x.parents, parent.ptr),
            Op::Call(x) => remove_from(&mut x.parents, parent.ptr),
            Op::Fold(x) => remove_from(&mut x.parents, parent.ptr),
            Op::Vector(x) => remove_from(&mut x.parents, parent.ptr),
            Op::Matrix(x) => remove_from(&mut x.parents, parent.ptr),
            Op::Accessor(x) => remove_from(&mut x.parents, parent.ptr),
            Op::BusOp(x) => remove_from(&mut x.parents, parent.ptr),
            Op::Parameter(x) => remove_from(&mut x.parents, parent.ptr),
            Op::Value(x) => remove_from(&mut x.parents, parent.ptr),
            Op::Nil(_) => {
                assert(without_parent(seq![], parent.ptr) =~= seq![]);
            },
        }
    }
}

/// The two ops differ at most in their parents.
pub open spec fn same_but_parents(a: Op, b: Op) -> bool {
    match (a, b) {
        (Op::Enf(x), Op::Enf(y)) => x.expr == y.expr && x._node == y._node && x.span == y.span && x._owner == y._owner,
        (Op::Boundary(x), Op::Boundary(y)) => x.kind == y.kind && x.expr == y.expr && x._node == y._node && x.span == y.span && x._owner == y._owner,
        (Op::Add(x), Op::Add(y)) => x.lhs == y.lhs && x.rhs == y.rhs && x._node == y._node && x.span == y.span && x._owner == y._owner,
        (Op::Sub(x), Op::Sub(y)) => x.lhs == y.lhs && x.rhs == y.rhs && x._node == y._node && x.span == y.span && x._owner == y._owner,
        (Op::Mul(x), Op::Mul(y)) => x.lhs == y.lhs && x.rhs == y.rhs && x._node == y._node && x.span == y.span && x._owner == y._owner,
        (Op::Exp(x), Op::Exp(y)) => x.lhs == y.lhs && x.rhs == y.rhs && x._node == y._node && x.span == y.span && x._owner == y._owner,
        (Op::If(x), Op::If(y)) => x.match_arms == y.match_arms && x._node == y._node && x.span == y.span && x._owner == y._owner,
        (Op::For(x), Op::For(y)) => x.iterators == y.iterators && x.expr == y.expr && x.selector == y.selector && x.owner_id == y.owner_id && x._node == y._node && x.span == y.span && x._owner == y._owner,
        (Op::Call(x), Op::Call(y)) => x.function == y.function && x.arguments == y.arguments && x._node == y._node && x.span == y.span && x._owner == y._owner,
        (Op::Fold(x), Op::Fold(y)) => x.iterator == y.iterator && x.operator == y.operator && x.initial_value == y.initial_value && x._node == y._node && x.span == y.span && x._owner == y._owner,
        (Op::Vector(x), Op::Vector(y)) => x.elements == y.elements && x._node == y._node && x.span == y.span && x._owner == y._owner,
        (Op::Matrix(x), Op::Matrix(y)) => x.elements == y.elements && x._node == y._node && x.span == y.span && x._owner == y._owner,
        (Op::Accessor(x), Op::Accessor(y)) => x.indexable == y.indexable && x.access_type == y.access_type && x.offset == y.offset && x._node == y._node && x.span == y.span && x._owner == y._owner,
        (Op::BusOp(x), Op::BusOp(y)) => x.bus == y.bus && x.kind == y.kind && x.args == y.args && x.latch == y.latch && x._node == y._node && x.span == y.span && x._owner == y._owner,
        (Op::Parameter(x), Op::Parameter(y)) => x.owner_id == y.owner_id && x.position == y.position && x.is_for_output == y.is_for_output && x._node == y._node && x.span == y.span,
        (Op::Value(x), Op::Value(y)) => x.value == y.value && x._node == y._node && x.span == y.span,
        (Op::Nil(x), Op::Nil(y)) => x == y,
        _ => false,
    }
}

} // verus!
