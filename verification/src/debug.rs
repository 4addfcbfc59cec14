//! Debug text for ops, roots and node views, showing the slot each lives in.
use vstd::prelude::*;

use std::fmt::Debug;

use crate::graph::Graph;
use crate::ir::{Node, Op, Root};
use crate::link::Link;
use crate::views::{node_live_op, node_live_root};

verus! {

/// The decimal digit `d` (below ten).
pub open spec fn digit(d: nat) -> char {
    if d == 0 { '0' } else if d == 1 { '1' } else if d == 2 { '2' } else if d == 3 { '3' } else if d == 4 {
        '4'
    } else if d == 5 { '5' } else if d == 6 { '6' } else if d == 7 { '7' } else if d == 8 { '8' } else { '9' }
}

/// The decimal text of `n`.
pub open spec fn decimal(n: nat) -> Seq<char>
    decreases n,
{
    if n < 10 {
        seq![digit(n)]
    } else {
        decimal(n / 10).push(digit(n % 10))
    }
}

/// The name an op is shown under.
pub open spec fn op_debug_name(op: Op) -> Seq<char> {
    match op {
        Op::Enf(_) => "Op::Enf"@,
        Op::Boundary(_) => "Op::Boundary"@,
        Op::Add(_) => "Op::Add"@,
        Op::Sub(_) => "Op::Sub"@,
        Op::Mul(_) => "Op::Mul"@,
        Op::Exp(_) => "Op::Exp"@,
        Op::If(_) => "Op::If"@,
        Op::For(_) => "Op::For"@,
        Op::Call(_) => "Op::Call"@,
        Op::Fold(_) => "Op::Fold"@,
        Op::Vector(_) => "Op::Vector"@,
        Op::Matrix(_) => "Op::Matrix"@,
        Op::Accessor(_) => "Op::Accessor"@,
        Op::BusOp(_) => "Op::BusOp"@,
        Op::Parameter(_) => "Op::Parameter"@,
        Op::Value(_) => "Op::Value"@,
        Op::Nil(_) => "Op::None"@,
    }
}

/// `s` is the debug text of the op in slot `ptr`: `Op::None` for an empty op, otherwise its name,
/// `@`, the slot in decimal and `(`, then the op's content, then `)`.
pub open spec fn op_text(op: Op, ptr: usize, s: Seq<char>) -> bool {
    if op is Nil {
        s == "Op::None"@
    } else {
        let head = op_debug_name(op) + seq!['@'] + decimal(ptr as nat) + seq!['('];
        &&& s.len() > head.len()
        &&& s.subrange(0, head.len() as int) == head
        &&& s.last() == ')'
    }
}

/// `s` is the debug text of a root: `Root::None` for an empty root, otherwise its name and `: `,
/// then its content.
pub open spec fn root_text(root: Root, s: Seq<char>) -> bool {
    match root {
        Root::Nil(_) => s == "Root::None"@,
        Root::Function(_) => s.len() >= "Root::Function"@.len() + 2 && s.subrange(0, "Root::Function"@.len() + 2int)
            == "Root::Function"@ + seq![':', ' '],
        Root::Evaluator(_) => s.len() >= "Root::Evaluator"@.len() + 2 && s.subrange(
            0,
            "Root::Evaluator"@.len() + 2int,
        ) == "Root::Evaluator"@ + seq![':', ' '],
    }
}

/// The text `prefix@ptr(value)`, with the slot in decimal and the value shown by its
/// pretty-printed `Debug` form; nothing is stated of the `Debug` text.
#[verifier::external_body]
fn debug_text<T: Debug>(prefix: &str, ptr: usize, value: &T) -> (r: String)
    ensures
        r@.len() > (prefix@ + seq!['@'] + decimal(ptr as nat) + seq!['(']).len(),
        r@.subrange(0, (prefix@ + seq!['@'] + decimal(ptr as nat) + seq!['(']).len() as int) == prefix@
            + seq!['@'] + decimal(ptr as nat) + seq!['('],
        r@.last() == ')',
{
    format!("{}@{}({:#?})", prefix, ptr, value)
}

/// The text `prefix: value`, with the value shown by its pretty-printed `Debug` form; nothing
/// is stated of the `Debug` text.
#[verifier::external_body]
fn debug_root_text<T: Debug>(prefix: &str, value: &T) -> (r: String)
    ensures
        r@.len() >= prefix@.len() + 2,
        r@.subrange(0, prefix@.len() + 2int) == prefix@ + seq![':', ' '],
{
    format!("{}: {:#?}", prefix, value)
}

/// The text `prefix(inner)`.
fn wrapped(prefix: &str, inner: String) -> (r: String)
    ensures
        r@ == prefix@ + seq!['('] + inner@ + seq![')'],
{
    let mut r = String::from_str(prefix);
    r.append("(");
    r.append(inner.as_str());
    r.append(")");
    proof {
        reveal_strlit("(");
        reveal_strlit(")");
    }
    r
}

impl Link<Op> {
    /// Debug the current [Op], showing its slot and its content.
    pub fn debug(&self, g: &Graph) -> (r: String)
        requires
            self.ptr < g.ops.len(),
        ensures
            op_text(g.ops@[self.ptr as int], self.ptr, r@),
    {
        let p = self.ptr;
        match &g.ops[p] {
            Op::Enf(e) => debug_text("Op::Enf", p, e),
            Op::Boundary(b) => debug_text("Op::Boundary", p, b),
            Op::Add(a) => debug_text("Op::Add", p, a),
            Op::Sub(s) => debug_text("Op::Sub", p, s),
            Op::Mul(m) => debug_text("Op::Mul", p, m),
            Op::Exp(e) => debug_text("Op::Exp", p, e),
            Op::If(i) => debug_text("Op::If", p, i),
            Op::For(f) => debug_text("Op::For", p, f),
            Op::Call(c) => debug_text("Op::Call", p, c),
            Op::Fold(f) => debug_text("Op::Fold", p, f),
            Op::Vector(v) => debug_text("Op::Vector", p, v),
            Op::Matrix(m) => debug_text("Op::Matrix", p, m),
            Op::Accessor(a) => debug_text("Op::Accessor", p, a),
            Op::BusOp(b) => debug_text("Op::BusOp", p, b),
            Op::Parameter(x) => debug_text("Op::Parameter", p, x),
            Op::Value(v) => debug_text("Op::Value", p, v),
            Op::Nil(_) => "Op::None".to_owned(),
        }
    }
}

impl Link<Root> {
    /// Debug the current [Root].
    pub fn debug(&self, g: &Graph) -> (r: String)
        requires
            self.ptr < g.roots.len(),
        ensures
            root_text(g.roots@[self.ptr as int], r@),
    {
        match &g.roots[self.ptr] {
            Root::Function(f) => debug_root_text("Root::Function", f),
            Root::Evaluator(e) => debug_root_text("Root::Evaluator", e),
            Root::Nil(_) => "Root::None".to_owned(),
        }
    }
}

impl Link<Node> {
    /// Debug the current [Node]: the root or op it names, as opposed to the derived debug text,
    /// which shows only the weak handles.
    pub fn debug(&self, g: &Graph) -> (r: String)
        requires
            g.wf(),
            self.ptr < g.nodes.len(),
        ensures
            match node_live_root(*g, g.nodes@[self.ptr as int]) {
                Some(p) => exists|s: Seq<char>|
                    #[trigger] root_text(g.roots@[p as int], s) && r@ == "Node::Root"@ + seq!['('] + s + seq![')'],
                None => match node_live_op(*g, g.nodes@[self.ptr as int]) {
                    Some(p) => exists|s: Seq<char>|
                        #[trigger] op_text(g.ops@[p as int], p, s) && r@ == "Node::Op"@ + seq!['('] + s + seq![')'],
                    None => r@ == "Node::None"@,
                },
            },
    {
        match self.as_root(g) {
            Some(root) => wrapped("Node::Root", root.debug(g)),
            None => match self.as_op(g) {
                Some(op) => wrapped("Node::Op", op.debug(g)),
                None => "Node::None".to_owned(),
            },
        }
    }
}

} // verus!
