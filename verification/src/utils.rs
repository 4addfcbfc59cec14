//! MIR utility helpers: shareability checks, graph statistics and hashing.
use vstd::prelude::*;

use std::hash::{DefaultHasher, Hash, Hasher};

use crate::builder::{lemma_popcount_le, popcount};
use crate::graph::{op_node, root_children, root_node, Graph};
use crate::views::frame;
use crate::ir::{op_children, Bus, Node, Op, Parent, Root};
use crate::link::Link;
use crate::value::{copy_vec, QualifiedIdentifier};

verus! {

/// Is the op of a kind that is safe to share (to cache or intern)?
pub open spec fn shareable(op: Op) -> bool {
    match op {
        Op::Value(_) | Op::Parameter(_) | Op::Add(_) | Op::Sub(_) | Op::Mul(_) | Op::Exp(_)
        | Op::Vector(_) | Op::Matrix(_) | Op::Accessor(_) => true,
        _ => false,
    }
}

/// The shareable ops are exactly the values, parameters, sums, differences, products, powers,
/// vectors, matrices and accessors; constraints, conditionals, loops, calls, folds, bus operations
/// and `None` are not.
pub proof fn law_shareable_kinds(op: Op)
    ensures
        op is Value ==> shareable(op),
        op is Parameter ==> shareable(op),
        op is Add ==> shareable(op),
        op is Sub ==> shareable(op),
        op is Mul ==> shareable(op),
        op is Exp ==> shareable(op),
        op is Vector ==> shareable(op),
        op is Matrix ==> shareable(op),
        op is Accessor ==> shareable(op),
        op is Enf ==> !shareable(op),
        op is Boundary ==> !shareable(op),
        op is If ==> !shareable(op),
        op is For ==> !shareable(op),
        op is Call ==> !shareable(op),
        op is Fold ==> !shareable(op),
        op is BusOp ==> !shareable(op),
        op is Nil ==> !shareable(op),
{
}

/// Conservative shareability predicate for ops: used to gate caching and interning to avoid
/// accidental semantic changes.
pub fn is_shareable_op(op: &Op) -> (r: bool)
    ensures
        r == shareable(*op),
{
    match op {
        Op::Value(_) | Op::Parameter(_) | Op::Add(_) | Op::Sub(_) | Op::Mul(_) | Op::Exp(_)
        | Op::Vector(_) | Op::Matrix(_) | Op::Accessor(_) => true,
        _ => false,
    }
}

/// Is `name` the same text as `other`?
fn same_name(name: &str, other: &str) -> (r: bool)
    ensures
        r == (name@ == other@),
{
    let a = String::from_str(name);
    let b = String::from_str(other);
    a == b
}

/// Counts of the nodes of a graph, by kind.
#[derive(Debug)]
pub struct GraphStats {
    pub total_nodes: usize,
    pub total_ops: usize,
    pub total_roots: usize,
    pub counts: Vec<(&'static str, usize)>,
}

/// The count recorded for `name` among `counts` (0 where it has none).
pub open spec fn count_in(counts: Seq<(&'static str, usize)>, name: Seq<char>) -> nat {
    if exists|i: int| 0 <= i < counts.len() && (#[trigger] counts[i]).0@ == name {
        counts[choose|i: int| 0 <= i < counts.len() && (#[trigger] counts[i]).0@ == name].1 as nat
    } else {
        0
    }
}

impl GraphStats {
    /// No kind is counted twice.
    pub open spec fn wf(&self) -> bool {
        forall|i: int, j: int|
            0 <= i < j < self.counts.len() ==> (#[trigger] self.counts@[i]).0@ != (
            #[trigger] self.counts@[j]).0@
    }

    /// How many nodes of the kind `name` were recorded.
    pub open spec fn count(&self, name: Seq<char>) -> nat {
        count_in(self.counts@, name)
    }

    /// Statistics with nothing recorded.
    pub fn new() -> (r: Self)
        ensures
            r.wf(),
            r.total_nodes == 0,
            r.total_ops == 0,
            r.total_roots == 0,
            forall|name: Seq<char>| r.count(name) == 0,
    {
        GraphStats { total_nodes: 0, total_ops: 0, total_roots: 0, counts: Vec::new() }
    }

    /// Add one to the count of `name`.
    fn bump(&mut self, name: &'static str)
        requires
            old(self).wf(),
            old(self).count(name@) < usize::MAX,
        ensures
            final(self).wf(),
            final(self).count(name@) == old(self).count(name@) + 1,
            forall|other: Seq<char>| other != name@ ==> final(self).count(other) == old(self).count(other),
            final(self).total_nodes == old(self).total_nodes,
            final(self).total_ops == old(self).total_ops,
            final(self).total_roots == old(self).total_roots,
    {
        let mut i: usize = 0;
        while i < self.counts.len()
            invariant
                i <= self.counts.len(),
                *self == *old(self),
                self.wf(),
                old(self).count(name@) < usize::MAX,
                forall|t: int| 0 <= t < i ==> (#[trigger] self.counts@[t]).0@ != name@,
            decreases self.counts.len() - i,
        {
            if same_name(self.counts[i].0, name) {
                let ghost before = *self;
                proof {
                    let c = choose|c: int| 0 <= c < before.counts.len() && (#[trigger] before.counts@[c]).0@ == name@;
                    if c != i {
                        if c < i {
                            assert(before.counts@[c].0@ != before.counts@[i as int].0@);
                        } else {
                            assert(before.counts@[i as int].0@ != before.counts@[c].0@);
                        }
                    }
                }
                let (key, n) = self.counts[i];
                proof {
                    assert(before.count(name@) == n);
                }
                self.counts.set(i, (key, n + 1));
                proof {
                    assert(self.counts@[i as int].0@ == name@);
                    let c = choose|c: int| 0 <= c < self.counts.len() && (#[trigger] self.counts@[c]).0@ == name@;
                    if c != i {
                        if c < i {
                            assert(self.counts@[c].0@ != self.counts@[i as int].0@);
                        } else {
                            assert(self.counts@[i as int].0@ != self.counts@[c].0@);
                        }
                    }
                    assert forall|other: Seq<char>| other != name@ implies #[trigger] self.count(other) == before.count(other) by {
                        if exists|t: int| 0 <= t < before.counts.len() && (#[trigger] before.counts@[t]).0@ == other {
                            let t = choose|t: int| 0 <= t < before.counts.len() && (#[trigger] before.counts@[t]).0@ == other;
                            assert(self.counts@[t] == before.counts@[t]);
                            let u = choose|u: int| 0 <= u < self.counts.len() && (#[trigger] self.counts@[u]).0@ == other;
                            if u != t {
                                if u < t {
                                    assert(self.counts@[u].0@ != self.counts@[t].0@);
                                } else {
                                    assert(self.counts@[t].0@ != self.counts@[u].0@);
                                }
                            }
                        } else {
                            assert forall|t: int| 0 <= t < self.counts.len() implies (#[trigger] self.counts@[t]).0@ != other by {
                                if t != i {
                                    assert(self.counts@[t] == before.counts@[t]);
                                }
                            }
                        }
                    }
                }
                return;
            }
            i = i + 1;
        }
        let ghost before = *self;
        proof {
            assert(!(exists|t: int| 0 <= t < before.counts.len() && (#[trigger] before.counts@[t]).0@ == name@));
        }
        self.counts.push((name, 1));
        proof {
            let n = before.counts.len() as int;
            assert(self.counts@[n].0@ == name@);
            assert forall|a: int, b: int| 0 <= a < b < self.counts.len() implies (#[trigger] self.counts@[a]).0@ != (
                #[trigger] self.counts@[b]).0@ by {
                if b < n {
                    assert(self.counts@[a] == before.counts@[a]);
                    assert(self.counts@[b] == before.counts@[b]);
                } else {
                    assert(self.counts@[a] == before.counts@[a]);
                }
            }
            let c = choose|c: int| 0 <= c < self.counts.len() && (#[trigger] self.counts@[c]).0@ == name@;
            if c != n {
                assert(self.counts@[c] == before.counts@[c]);
            }
            assert forall|other: Seq<char>| other != name@ implies #[trigger] self.count(other) == before.count(other) by {
                if exists|t: int| 0 <= t < before.counts.len() && (#[trigger] before.counts@[t]).0@ == other {
                    let t = choose|t: int| 0 <= t < before.counts.len() && (#[trigger] before.counts@[t]).0@ == other;
                    assert(self.counts@[t] == before.counts@[t]);
                    let u = choose|u: int| 0 <= u < self.counts.len() && (#[trigger] self.counts@[u]).0@ == other;
                    if u != t {
                        if u < t {
                            assert(self.counts@[u].0@ != self.counts@[t].0@);
                        } else {
                            assert(self.counts@[t].0@ != self.counts@[u].0@);
                        }
                    }
                } else {
                    assert forall|t: int| 0 <= t < self.counts.len() implies (#[trigger] self.counts@[t]).0@ != other by {
                        if t < n {
                            assert(self.counts@[t] == before.counts@[t]);
                        }
                    }
                }
            }
        }
    }

    /// Record a root node of the kind `name`.
    pub fn record_root(&mut self, name: &'static str)
        requires
            old(self).wf(),
            old(self).total_nodes < usize::MAX,
            old(self).total_roots < usize::MAX,
            old(self).count(name@) < usize::MAX,
        ensures
            final(self).wf(),
            final(self).total_nodes == old(self).total_nodes + 1,
            final(self).total_roots == old(self).total_roots + 1,
            final(self).total_ops == old(self).total_ops,
            final(self).count(name@) == old(self).count(name@) + 1,
            forall|other: Seq<char>| other != name@ ==> final(self).count(other) == old(self).count(other),
    {
        self.total_nodes = self.total_nodes + 1;
        self.total_roots = self.total_roots + 1;
        self.bump(name);
    }

    /// Record an op node of the kind `name`.
    pub fn record_op(&mut self, name: &'static str)
        requires
            old(self).wf(),
            old(self).total_nodes < usize::MAX,
            old(self).total_ops < usize::MAX,
            old(self).count(name@) < usize::MAX,
        ensures
            final(self).wf(),
            final(self).total_nodes == old(self).total_nodes + 1,
            final(self).total_ops == old(self).total_ops + 1,
            final(self).total_roots == old(self).total_roots,
            final(self).count(name@) == old(self).count(name@) + 1,
            forall|other: Seq<char>| other != name@ ==> final(self).count(other) == old(self).count(other),
    {
        self.total_nodes = self.total_nodes + 1;
        self.total_ops = self.total_ops + 1;
        self.bump(name);
    }
}

impl Default for GraphStats {
    fn default() -> (r: Self)
        ensures
            r.wf(),
            r.total_nodes == 0,
            r.total_ops == 0,
            r.total_roots == 0,
            forall|name: Seq<char>| r.count(name) == 0,
    {
        GraphStats::new()
    }
}

/// Recording nodes keeps the totals consistent: each record adds one node, which is an op or a
/// root, and one to the count of its kind.
pub proof fn law_record_totals(a: GraphStats, b: GraphStats, name: Seq<char>)
    requires
        a.total_nodes == a.total_ops + a.total_roots,
        b.total_nodes == a.total_nodes + 1,
        (b.total_ops == a.total_ops + 1 && b.total_roots == a.total_roots) || (b.total_roots == a.total_roots + 1
            && b.total_ops == a.total_ops),
    ensures
        b.total_nodes == b.total_ops + b.total_roots,
{
}

/// Feed `val` to the hasher, by its `Hash` implementation. Nothing is stated of the bytes it
/// writes.
#[verifier::external_body]
fn feed<T: Hash>(val: &T, hasher: &mut DefaultHasher) {
    val.hash(hasher);
}

/// The hash, by the standard library's default hasher, of a value: what the hasher finishes
/// with once the value has been fed to a new one.
pub fn hash<T: Hash>(val: &T) -> u64 {
    let mut hasher = DefaultHasher::new();
    feed(val, &mut hasher);
    hasher.finish()
}


/// A node of the graph: an op (`false`) or a root (`true`), by slot.
pub type Item = (bool, usize);

/// The node is a live slot of the graph.
pub open spec fn item_live(g: Graph, it: Item) -> bool {
    if it.0 {
        g.root_live(it.1)
    } else {
        g.op_live(it.1)
    }
}

/// The children of the node: the body of a root, the operands of an op.
pub open spec fn item_children(g: Graph, it: Item) -> Seq<Link<Op>> {
    if it.0 {
        root_children(g.roots@[it.1 as int])
    } else {
        op_children(g.ops@[it.1 as int])
    }
}

/// The node is one the statistics start from: a boundary or integrity constraint, a bus column
/// or latch, a function or an evaluator.
pub open spec fn is_start(g: Graph, it: Item) -> bool {
    if it.0 {
        ||| exists|k: int| 0 <= k < g.functions.len() && (#[trigger] g.functions@[k]).1.ptr == it.1
        ||| exists|k: int| 0 <= k < g.evaluators.len() && (#[trigger] g.evaluators@[k]).1.ptr == it.1
    } else {
        ||| exists|k: int| 0 <= k < g.boundary_constraints_roots.len() && (#[trigger] g.boundary_constraints_roots@[k]).ptr == it.1
        ||| exists|k: int| 0 <= k < g.integrity_constraints_roots.len() && (#[trigger] g.integrity_constraints_roots@[k]).ptr == it.1
        ||| exists|b: int, j: int| 0 <= b < g.buses.len() && 0 <= j < g.buses@[b].columns.len() && (#[trigger] g.buses@[b].columns@[j]).ptr == it.1
        ||| exists|b: int, j: int| 0 <= b < g.buses.len() && 0 <= j < g.buses@[b].latches.len() && (#[trigger] g.buses@[b].latches@[j]).ptr == it.1
    }
}

/// The node is reached from a start node by a path of at most `n` steps through live nodes.
pub open spec fn reach_within(g: Graph, it: Item, n: nat) -> bool
    decreases n,
{
    ||| is_start(g, it)
    ||| (n > 0 && exists|y: Item, j: int|
        reach_within(g, y, (n - 1) as nat) && item_live(g, y) && 0 <= j < item_children(g, y).len()
            && (#[trigger] item_children(g, y)[j]).ptr == it.1 && !it.0)
}

/// The node is reached from a start node through live nodes.
pub open spec fn reachable(g: Graph, it: Item) -> bool {
    exists|n: nat| reach_within(g, it, n)
}

/// The live nodes reached from the start nodes.
pub open spec fn reached(g: Graph) -> Set<Item> {
    Set::new(|it: Item| reachable(g, it) && item_live(g, it))
}

/// The kind of the node the statistics count it as; none for a `None` op or root.
pub open spec fn kind_name(g: Graph, it: Item) -> Option<&'static str> {
    if it.0 {
        match g.roots@[it.1 as int] {
            Root::Function(_) => Some("Function"),
            Root::Evaluator(_) => Some("Evaluator"),
            Root::Nil(_) => None,
        }
    } else {
        op_kind_name(g.ops@[it.1 as int])
    }
}

/// The kind an op is counted as.
pub open spec fn op_kind_name(op: Op) -> Option<&'static str> {
    match op {
        Op::Enf(_) => Some("Enf"),
        Op::Boundary(_) => Some("Boundary"),
        Op::Add(_) => Some("Add"),
        Op::Sub(_) => Some("Sub"),
        Op::Mul(_) => Some("Mul"),
        Op::Exp(_) => Some("Exp"),
        Op::If(_) => Some("If"),
        Op::For(_) => Some("For"),
        Op::Call(_) => Some("Call"),
        Op::Fold(_) => Some("Fold"),
        Op::Vector(_) => Some("Vector"),
        Op::Matrix(_) => Some("Matrix"),
        Op::Accessor(_) => Some("Accessor"),
        Op::BusOp(_) => Some("BusOp"),
        Op::Parameter(_) => Some("Parameter"),
        Op::Value(_) => Some("Value"),
        Op::Nil(_) => None,
    }
}

/// Each op is counted under the name of its own kind, and under no other: two ops of different
/// kinds are counted under different names; `None` is not counted.
pub proof fn law_op_kind_names(op: Op)
    ensures
        (op_kind_name(op) is None) == (op is Nil),
        (op_kind_name(op) matches Some(k) && k@ == "Enf"@) == (op is Enf),
        (op_kind_name(op) matches Some(k) && k@ == "Boundary"@) == (op is Boundary),
        (op_kind_name(op) matches Some(k) && k@ == "Add"@) == (op is Add),
        (op_kind_name(op) matches Some(k) && k@ == "Sub"@) == (op is Sub),
        (op_kind_name(op) matches Some(k) && k@ == "Mul"@) == (op is Mul),
        (op_kind_name(op) matches Some(k) && k@ == "Exp"@) == (op is Exp),
        (op_kind_name(op) matches Some(k) && k@ == "If"@) == (op is If),
        (op_kind_name(op) matches Some(k) && k@ == "For"@) == (op is For),
        (op_kind_name(op) matches Some(k) && k@ == "Call"@) == (op is Call),
        (op_kind_name(op) matches Some(k) && k@ == "Fold"@) == (op is Fold),
        (op_kind_name(op) matches Some(k) && k@ == "Vector"@) == (op is Vector),
        (op_kind_name(op) matches Some(k) && k@ == "Matrix"@) == (op is Matrix),
        (op_kind_name(op) matches Some(k) && k@ == "Accessor"@) == (op is Accessor),
        (op_kind_name(op) matches Some(k) && k@ == "BusOp"@) == (op is BusOp),
        (op_kind_name(op) matches Some(k) && k@ == "Parameter"@) == (op is Parameter),
        (op_kind_name(op) matches Some(k) && k@ == "Value"@) == (op is Value),
{
    reveal_strlit("Enf");
    assert("Enf"@.len() == 3 && "Enf"@[0] == 'E' && "Enf"@[1] == 'n');
    reveal_strlit("Boundary");
    assert("Boundary"@.len() == 8 && "Boundary"@[0] == 'B' && "Boundary"@[1] == 'o');
    reveal_strlit("Add");
    assert("Add"@.len() == 3 && "Add"@[0] == 'A' && "Add"@[1] == 'd');
    reveal_strlit("Sub");
    assert("Sub"@.len() == 3 && "Sub"@[0] == 'S' && "Sub"@[1] == 'u');
    reveal_strlit("Mul");
    assert("Mul"@.len() == 3 && "Mul"@[0] == 'M' && "Mul"@[1] == 'u');
    reveal_strlit("Exp");
    assert("Exp"@.len() == 3 && "Exp"@[0] == 'E' && "Exp"@[1] == 'x');
    reveal_strlit("If");
    assert("If"@.len() == 2 && "If"@[0] == 'I' && "If"@[1] == 'f');
    reveal_strlit("For");
    assert("For"@.len() == 3 && "For"@[0] == 'F' && "For"@[1] == 'o');
    reveal_strlit("Call");
    assert("Call"@.len() == 4 && "Call"@[0] == 'C' && "Call"@[1] == 'a');
    reveal_strlit("Fold");
    assert("Fold"@.len() == 4 && "Fold"@[0] == 'F' && "Fold"@[1] == 'o');
    reveal_strlit("Vector");
    assert("Vector"@.len() == 6 && "Vector"@[0] == 'V' && "Vector"@[1] == 'e');
    reveal_strlit("Matrix");
    assert("Matrix"@.len() == 6 && "Matrix"@[0] == 'M' && "Matrix"@[1] == 'a');
    reveal_strlit("Accessor");
    assert("Accessor"@.len() == 8 && "Accessor"@[0] == 'A' && "Accessor"@[1] == 'c');
    reveal_strlit("BusOp");
    assert("BusOp"@.len() == 5 && "BusOp"@[0] == 'B' && "BusOp"@[1] == 'u');
    reveal_strlit("Parameter");
    assert("Parameter"@.len() == 9 && "Parameter"@[0] == 'P' && "Parameter"@[1] == 'a');
    reveal_strlit("Value");
    assert("Value"@.len() == 5 && "Value"@[0] == 'V' && "Value"@[1] == 'a');
}

/// The nodes of `s` counted under the kind `name`.
pub open spec fn named(g: Graph, s: Set<Item>, name: Seq<char>) -> Set<Item> {
    s.filter(|it: Item| kind_name(g, it) matches Some(k) && k@ == name)
}

/// The nodes of `s` counted as roots, or as ops.
pub open spec fn counted(g: Graph, s: Set<Item>, roots: bool) -> Set<Item> {
    s.filter(|it: Item| it.0 == roots && kind_name(g, it) is Some)
}

fn op_kind(op: &Op) -> (r: Option<&'static str>)
    ensures
        r == op_kind_name(*op),
{
    match op {
        Op::Enf(_) => Some("Enf"),
        Op::Boundary(_) => Some("Boundary"),
        Op::Add(_) => Some("Add"),
        Op::Sub(_) => Some("Sub"),
        Op::Mul(_) => Some("Mul"),
        Op::Exp(_) => Some("Exp"),
        Op::If(_) => Some("If"),
        Op::For(_) => Some("For"),
        Op::Call(_) => Some("Call"),
        Op::Fold(_) => Some("Fold"),
        Op::Vector(_) => Some("Vector"),
        Op::Matrix(_) => Some("Matrix"),
        Op::Accessor(_) => Some("Accessor"),
        Op::BusOp(_) => Some("BusOp"),
        Op::Parameter(_) => Some("Parameter"),
        Op::Value(_) => Some("Value"),
        Op::Nil(_) => None,
    }
}

/// Setting an unset entry adds one `true` entry.
pub proof fn lemma_popcount_set(s: Seq<bool>, i: int)
    requires
        0 <= i < s.len(),
        !s[i],
    ensures
        popcount(s.update(i, true)) == popcount(s) + 1,
    decreases s.len(),
{
    let t = s.update(i, true);
    if i == 0 {
        assert(t.drop_first() =~= s.drop_first());
    } else {
        assert(t.drop_first() =~= s.drop_first().update(i - 1, true));
        lemma_popcount_set(s.drop_first(), i - 1);
    }
}

/// The children of a root: its body.
fn root_children_exec(r: &Root) -> (c: Vec<Link<Op>>)
    ensures
        c@ == root_children(*r),
{
    match r {
        Root::Function(f) => copy_vec(&f.body),
        Root::Evaluator(e) => copy_vec(&e.body),
        Root::Nil(_) => Vec::new(),
    }
}

/// The live nodes reached are those of `seen`, where `seen` holds only live reached nodes, every
/// live start node, and every live child of its nodes.
proof fn lemma_reached_seen(g: Graph, seen: Set<Item>)
    requires
        forall|it: Item| #[trigger] seen.contains(it) ==> item_live(g, it) && reachable(g, it),
        forall|it: Item| is_start(g, it) && item_live(g, it) ==> seen.contains(it),
        forall|x: Item, j: int|
            seen.contains(x) && 0 <= j < item_children(g, x).len() && item_live(g, (false, item_children(g, x)[j].ptr))
                ==> #[trigger] seen.contains((false, item_children(g, x)[j].ptr)),
    ensures
        reached(g) == seen,
{
    assert forall|it: Item| reachable(g, it) && item_live(g, it) implies seen.contains(it) by {
        let n = choose|n: nat| reach_within(g, it, n);
        lemma_reach_within_seen(g, seen, it, n);
    }
    assert(reached(g) =~= seen);
}

proof fn lemma_reach_within_seen(g: Graph, seen: Set<Item>, it: Item, n: nat)
    requires
        forall|it: Item| is_start(g, it) && item_live(g, it) ==> seen.contains(it),
        forall|x: Item, j: int|
            seen.contains(x) && 0 <= j < item_children(g, x).len() && item_live(g, (false, item_children(g, x)[j].ptr))
                ==> #[trigger] seen.contains((false, item_children(g, x)[j].ptr)),
        reach_within(g, it, n),
        item_live(g, it),
    ensures
        seen.contains(it),
    decreases n,
{
    if !is_start(g, it) {
        let (y, j) = choose|y: Item, j: int|
            reach_within(g, y, (n - 1) as nat) && item_live(g, y) && 0 <= j < item_children(g, y).len()
                && (#[trigger] item_children(g, y)[j]).ptr == it.1 && !it.0;
        lemma_reach_within_seen(g, seen, y, (n - 1) as nat);
        assert(it == (false, item_children(g, y)[j].ptr));
    }
}

/// A row of `false` entries has no `true` entry.
proof fn lemma_popcount_all_false(s: Seq<bool>)
    requires
        forall|i: int| 0 <= i < s.len() ==> !s[i],
    ensures
        popcount(s) == 0,
    decreases s.len(),
{
    if s.len() > 0 {
        lemma_popcount_all_false(s.drop_first());
    }
}

/// Counting a new node adds it to the nodes of its kind only.
proof fn lemma_counts_insert(g: Graph, s: Set<Item>, it: Item)
    requires
        s.finite(),
        !s.contains(it),
    ensures
        forall|name: Seq<char>| #[trigger] named(g, s.insert(it), name).len() == named(g, s, name).len() + (
            if kind_name(g, it) matches Some(k) && k@ == name {
                1int
            } else {
                0int
            }),
        counted(g, s.insert(it), false).len() == counted(g, s, false).len() + (if !it.0 && kind_name(g, it) is Some {
            1int
        } else {
            0int
        }),
        counted(g, s.insert(it), true).len() == counted(g, s, true).len() + (if it.0 && kind_name(g, it) is Some {
            1int
        } else {
            0int
        }),
{
    assert forall|name: Seq<char>| #[trigger] named(g, s.insert(it), name).len() == named(g, s, name).len() + (
        if kind_name(g, it) matches Some(k) && k@ == name {
            1int
        } else {
            0int
        }) by {
        s.lemma_len_filter(|x: Item| kind_name(g, x) matches Some(k) && k@ == name);
        if kind_name(g, it) matches Some(k) && k@ == name {
            assert(named(g, s.insert(it), name) =~= named(g, s, name).insert(it));
        } else {
            assert(named(g, s.insert(it), name) =~= named(g, s, name));
        }
    }
    s.lemma_len_filter(|x: Item| x.0 == false && kind_name(g, x) is Some);
    s.lemma_len_filter(|x: Item| x.0 == true && kind_name(g, x) is Some);
    if !it.0 && kind_name(g, it) is Some {
        assert(counted(g, s.insert(it), false) =~= counted(g, s, false).insert(it));
    } else {
        assert(counted(g, s.insert(it), false) =~= counted(g, s, false));
    }
    if it.0 && kind_name(g, it) is Some {
        assert(counted(g, s.insert(it), true) =~= counted(g, s, true).insert(it));
    } else {
        assert(counted(g, s.insert(it), true) =~= counted(g, s, true));
    }
}

/// The counts of a set of nodes are at most its size.
proof fn lemma_counts_bounded(g: Graph, s: Set<Item>)
    requires
        s.finite(),
    ensures
        forall|name: Seq<char>| #[trigger] named(g, s, name).len() <= s.len(),
        counted(g, s, false).len() <= s.len(),
        counted(g, s, true).len() <= s.len(),
        counted(g, s, false).len() + counted(g, s, true).len() <= s.len(),
{
    assert forall|name: Seq<char>| #[trigger] named(g, s, name).len() <= s.len() by {
        s.lemma_len_filter(|x: Item| kind_name(g, x) matches Some(k) && k@ == name);
    }
    s.lemma_len_filter(|x: Item| x.0 == false && kind_name(g, x) is Some);
    s.lemma_len_filter(|x: Item| x.0 == true && kind_name(g, x) is Some);
    let a = counted(g, s, false);
    let b = counted(g, s, true);
    assert(a.disjoint(b));
    vstd::set_lib::lemma_set_disjoint_lens(a, b);
    assert(a + b <= s);
    vstd::set_lib::lemma_len_subset(a + b, s);
}

/// Push the children of a node, as op nodes.
fn push_children(stack: &mut Vec<Item>, children: &Vec<Link<Op>>)
    ensures
        final(stack)@ == old(stack)@ + children@.map_values(|l: Link<Op>| (false, l.ptr)),
{
    let mut k: usize = 0;
    while k < children.len()
        invariant
            k <= children.len(),
            stack@ == old(stack)@ + children@.take(k as int).map_values(|l: Link<Op>| (false, l.ptr)),
        decreases children.len() - k,
    {
        stack.push((false, children[k].ptr));
        k = k + 1;
        assert(stack@ =~= old(stack)@ + children@.take(k as int).map_values(|l: Link<Op>| (false, l.ptr)));
    }
    assert(children@.take(k as int) =~= children@);
}

/// A list with one more element still holds what it held, and holds that element.
proof fn lemma_push_keeps<T>(s: Seq<T>, a: T)
    ensures
        forall|x: T| s.contains(x) ==> #[trigger] s.push(a).contains(x),
        s.push(a).contains(a),
{
    assert forall|x: T| s.contains(x) implies #[trigger] s.push(a).contains(x) by {
        let t = choose|t: int| 0 <= t < s.len() && s[t] == x;
        assert(s.push(a)[t] == x);
    }
    assert(s.push(a)[s.len() as int] == a);
}

/// Push the op nodes named by `links` onto `r`.
fn push_ops(r: &mut Vec<Item>, links: &Vec<Link<Op>>, Ghost(start): Ghost<spec_fn(Item) -> bool>)
    requires
        forall|j: int| 0 <= j < old(r).len() ==> start(#[trigger] old(r)@[j]),
        forall|i: int| 0 <= i < links.len() ==> start((false, (#[trigger] links@[i]).ptr)),
    ensures
        forall|j: int| 0 <= j < final(r).len() ==> start(#[trigger] final(r)@[j]),
        forall|x: Item| old(r)@.contains(x) ==> #[trigger] final(r)@.contains(x),
        forall|i: int| 0 <= i < links.len() ==> final(r)@.contains((false, (#[trigger] links@[i]).ptr)),
{
    let mut k: usize = 0;
    while k < links.len()
        invariant
            k <= links.len(),
            forall|i: int| 0 <= i < links.len() ==> start((false, (#[trigger] links@[i]).ptr)),
            forall|j: int| 0 <= j < r.len() ==> start(#[trigger] r@[j]),
            forall|x: Item| old(r)@.contains(x) ==> #[trigger] r@.contains(x),
            forall|i: int| 0 <= i < k ==> r@.contains((false, (#[trigger] links@[i]).ptr)),
        decreases links.len() - k,
    {
        let ghost prev = r@;
        r.push((false, links[k].ptr));
        proof {
            lemma_push_keeps(prev, (false, links@[k as int].ptr));
        }
        k = k + 1;
    }
}

/// Push the root nodes named by `links` onto `r`.
fn push_roots(r: &mut Vec<Item>, links: &Vec<(QualifiedIdentifier, Link<Root>)>, Ghost(start): Ghost<spec_fn(Item) -> bool>)
    requires
        forall|j: int| 0 <= j < old(r).len() ==> start(#[trigger] old(r)@[j]),
        forall|i: int| 0 <= i < links.len() ==> start((true, (#[trigger] links@[i]).1.ptr)),
    ensures
        forall|j: int| 0 <= j < final(r).len() ==> start(#[trigger] final(r)@[j]),
        forall|x: Item| old(r)@.contains(x) ==> #[trigger] final(r)@.contains(x),
        forall|i: int| 0 <= i < links.len() ==> final(r)@.contains((true, (#[trigger] links@[i]).1.ptr)),
{
    let mut k: usize = 0;
    while k < links.len()
        invariant
            k <= links.len(),
            forall|i: int| 0 <= i < links.len() ==> start((true, (#[trigger] links@[i]).1.ptr)),
            forall|j: int| 0 <= j < r.len() ==> start(#[trigger] r@[j]),
            forall|x: Item| old(r)@.contains(x) ==> #[trigger] r@.contains(x),
            forall|i: int| 0 <= i < k ==> r@.contains((true, (#[trigger] links@[i]).1.ptr)),
        decreases links.len() - k,
    {
        let ghost prev = r@;
        r.push((true, links[k].1.ptr));
        proof {
            lemma_push_keeps(prev, (true, links@[k as int].1.ptr));
        }
        k = k + 1;
    }
}

/// The start nodes of the graph, each at least once.
fn start_items(g: &Graph) -> (r: Vec<Item>)
    requires
        g.wf(),
    ensures
        forall|j: int| 0 <= j < r.len() ==> is_start(*g, #[trigger] r@[j]),
        forall|it: Item| is_start(*g, it) ==> r@.contains(it),
{
    let ghost start = |it: Item| is_start(*g, it);
    let mut r: Vec<Item> = Vec::new();
    proof {
        assert forall|i: int| 0 <= i < g.boundary_constraints_roots.len() implies start((false, (#[trigger] g.boundary_constraints_roots@[i]).ptr)) by {}
        assert forall|i: int| 0 <= i < g.integrity_constraints_roots.len() implies start((false, (#[trigger] g.integrity_constraints_roots@[i]).ptr)) by {}
        assert forall|i: int| 0 <= i < g.functions.len() implies start((true, (#[trigger] g.functions@[i]).1.ptr)) by {}
        assert forall|i: int| 0 <= i < g.evaluators.len() implies start((true, (#[trigger] g.evaluators@[i]).1.ptr)) by {}
    }
    push_ops(&mut r, &g.boundary_constraints_roots, Ghost(start));
    push_ops(&mut r, &g.integrity_constraints_roots, Ghost(start));
    let ghost after_constraints = r@;
    let mut b: usize = 0;
    while b < g.buses.len()
        invariant
            b <= g.buses.len(),
            g.wf(),
            forall|it: Item| #[trigger] start(it) == is_start(*g, it),
            forall|j: int| 0 <= j < r.len() ==> start(#[trigger] r@[j]),
            forall|x: Item| after_constraints.contains(x) ==> #[trigger] r@.contains(x),
            forall|c: int, i: int| 0 <= c < b && 0 <= i < g.buses@[c].columns.len() ==> r@.contains((false, (#[trigger] g.buses@[c].columns@[i]).ptr)),
            forall|c: int, i: int| 0 <= c < b && 0 <= i < g.buses@[c].latches.len() ==> r@.contains((false, (#[trigger] g.buses@[c].latches@[i]).ptr)),
        decreases g.buses.len() - b,
    {
        let ghost before = r@;
        proof {
            assert forall|i: int| 0 <= i < g.buses@[b as int].columns.len() implies start((false, (#[trigger] g.buses@[b as int].columns@[i]).ptr)) by {}
            assert forall|i: int| 0 <= i < g.buses@[b as int].latches.len() implies start((false, (#[trigger] g.buses@[b as int].latches@[i]).ptr)) by {}
        }
        push_ops(&mut r, &g.buses[b].columns, Ghost(start));
        let ghost mid = r@;
        push_ops(&mut r, &g.buses[b].latches, Ghost(start));
        proof {
            assert forall|c: int, i: int| 0 <= c < b + 1 && 0 <= i < g.buses@[c].columns.len() implies r@.contains((false, (#[trigger] g.buses@[c].columns@[i]).ptr)) by {
                if c < b {
                    assert(before.contains((false, g.buses@[c].columns@[i].ptr)));
                } else {
                    assert(mid.contains((false, g.buses@[c].columns@[i].ptr)));
                }
            }
            assert forall|c: int, i: int| 0 <= c < b + 1 && 0 <= i < g.buses@[c].latches.len() implies r@.contains((false, (#[trigger] g.buses@[c].latches@[i]).ptr)) by {
                if c < b {
                    assert(before.contains((false, g.buses@[c].latches@[i].ptr)));
                    assert(mid.contains((false, g.buses@[c].latches@[i].ptr)));
                }
            }
        }
        b = b + 1;
    }
    let ghost after_buses = r@;
    push_roots(&mut r, &g.functions, Ghost(start));
    let ghost after_functions = r@;
    push_roots(&mut r, &g.evaluators, Ghost(start));
    proof {
        assert forall|it: Item| is_start(*g, it) implies r@.contains(it) by {
            if it.0 {
                if exists|k: int| 0 <= k < g.functions.len() && (#[trigger] g.functions@[k]).1.ptr == it.1 {
                    let k = choose|k: int| 0 <= k < g.functions.len() && (#[trigger] g.functions@[k]).1.ptr == it.1;
                    assert(after_functions.contains((true, g.functions@[k].1.ptr)));
                } else {
                    let k = choose|k: int| 0 <= k < g.evaluators.len() && (#[trigger] g.evaluators@[k]).1.ptr == it.1;
                    assert(r@.contains((true, g.evaluators@[k].1.ptr)));
                }
            } else {
                if exists|k: int| 0 <= k < g.boundary_constraints_roots.len() && (#[trigger] g.boundary_constraints_roots@[k]).ptr == it.1 {
                    let k = choose|k: int| 0 <= k < g.boundary_constraints_roots.len() && (#[trigger] g.boundary_constraints_roots@[k]).ptr == it.1;
                    assert(after_constraints.contains((false, g.boundary_constraints_roots@[k].ptr)));
                    assert(after_buses.contains(it));
                    assert(after_functions.contains(it));
                } else if exists|k: int| 0 <= k < g.integrity_constraints_roots.len() && (#[trigger] g.integrity_constraints_roots@[k]).ptr == it.1 {
                    let k = choose|k: int| 0 <= k < g.integrity_constraints_roots.len() && (#[trigger] g.integrity_constraints_roots@[k]).ptr == it.1;
                    assert(after_constraints.contains((false, g.integrity_constraints_roots@[k].ptr)));
                    assert(after_buses.contains(it));
                    assert(after_functions.contains(it));
                } else if exists|b: int, j: int| 0 <= b < g.buses.len() && 0 <= j < g.buses@[b].columns.len() && (#[trigger] g.buses@[b].columns@[j]).ptr == it.1 {
                    let (b, j) = choose|b: int, j: int| 0 <= b < g.buses.len() && 0 <= j < g.buses@[b].columns.len() && (#[trigger] g.buses@[b].columns@[j]).ptr == it.1;
                    assert(after_buses.contains((false, g.buses@[b].columns@[j].ptr)));
                    assert(after_functions.contains(it));
                } else {
                    let (b, j) = choose|b: int, j: int| 0 <= b < g.buses.len() && 0 <= j < g.buses@[b].latches.len() && (#[trigger] g.buses@[b].latches@[j]).ptr == it.1;
                    assert(after_buses.contains((false, g.buses@[b].latches@[j].ptr)));
                    assert(after_functions.contains(it));
                }
            }
        }
    }
    r
}

/// The statistics of the graph: the live nodes reached from the constraints, bus columns and
/// latches, functions and evaluators, counted by kind (ops and roots apart, `None` ops and roots
/// not counted).
pub fn collect_graph_stats(g: &Graph) -> (stats: GraphStats)
    requires
        g.wf(),
        g.ops.len() + g.roots.len() < usize::MAX,
    ensures
        stats.wf(),
        forall|name: Seq<char>| #[trigger] stats.count(name) == named(*g, reached(*g), name).len(),
        stats.total_ops == counted(*g, reached(*g), false).len(),
        stats.total_roots == counted(*g, reached(*g), true).len(),
        stats.total_nodes == stats.total_ops + stats.total_roots,
{
    let mut stats = GraphStats::new();
    let mut seen_ops: Vec<bool> = Vec::new();
    while seen_ops.len() < g.ops.len()
        invariant
            seen_ops.len() <= g.ops.len(),
            forall|i: int| 0 <= i < seen_ops.len() ==> !(#[trigger] seen_ops@[i]),
        decreases g.ops.len() - seen_ops.len(),
    {
        seen_ops.push(false);
    }
    let mut seen_roots: Vec<bool> = Vec::new();
    while seen_roots.len() < g.roots.len()
        invariant
            seen_roots.len() <= g.roots.len(),
            forall|i: int| 0 <= i < seen_roots.len() ==> !(#[trigger] seen_roots@[i]),
        decreases g.roots.len() - seen_roots.len(),
    {
        seen_roots.push(false);
    }
    proof {
        lemma_popcount_all_false(seen_ops@);
        lemma_popcount_all_false(seen_roots@);
    }
    let mut stack = start_items(g);
    let ghost mut seen: Set<Item> = Set::empty();
    proof {
        assert forall|name: Seq<char>| #[trigger] stats.count(name) == named(*g, seen, name).len() by {
            assert(named(*g, seen, name) =~= Set::empty());
        }
        assert(counted(*g, seen, false) =~= Set::empty());
        assert(counted(*g, seen, true) =~= Set::empty());
        assert forall|j: int| 0 <= j < stack.len() implies reachable(*g, #[trigger] stack@[j]) by {
            assert(reach_within(*g, stack@[j], 0));
        }
    }
    while stack.len() > 0
        invariant
            g.wf(),
            g.ops.len() + g.roots.len() < usize::MAX,
            seen_ops.len() == g.ops.len(),
            seen_roots.len() == g.roots.len(),
            seen.finite(),
            forall|it: Item| #[trigger] seen.contains(it) <==> (if it.0 {
                it.1 < g.roots.len() && seen_roots@[it.1 as int]
            } else {
                it.1 < g.ops.len() && seen_ops@[it.1 as int]
            }),
            seen.len() == popcount(seen_ops@) + popcount(seen_roots@),
            forall|it: Item| #[trigger] seen.contains(it) ==> item_live(*g, it) && reachable(*g, it),
            forall|j: int| 0 <= j < stack.len() ==> reachable(*g, #[trigger] stack@[j]),
            forall|it: Item| is_start(*g, it) && item_live(*g, it) ==> seen.contains(it) || stack@.contains(it),
            forall|x: Item, j: int|
                seen.contains(x) && 0 <= j < item_children(*g, x).len() && item_live(*g, (false, item_children(*g, x)[j].ptr))
                    ==> #[trigger] seen.contains((false, item_children(*g, x)[j].ptr)) || stack@.contains((false, item_children(*g, x)[j].ptr)),
            stats.wf(),
            forall|name: Seq<char>| #[trigger] stats.count(name) == named(*g, seen, name).len(),
            stats.total_ops == counted(*g, seen, false).len(),
            stats.total_roots == counted(*g, seen, true).len(),
            stats.total_nodes == stats.total_ops + stats.total_roots,
        decreases (g.ops.len() + g.roots.len()) - (popcount(seen_ops@) + popcount(seen_roots@)), stack.len(),
    {
        proof {
            lemma_popcount_le(seen_ops@);
            lemma_popcount_le(seen_roots@);
        }
        let ghost stack0 = stack@;
        let it = stack.pop().unwrap();
        let (is_root, ptr) = it;
        let live = if is_root {
            ptr < g.roots.len() && !g.root_dropped[ptr]
        } else {
            ptr < g.ops.len() && !g.op_dropped[ptr]
        };
        let already = live && if is_root {
            seen_roots[ptr]
        } else {
            seen_ops[ptr]
        };
        proof {
            assert(stack0 =~= stack@.push(it));
            assert forall|y: Item| stack0.contains(y) && y != it implies stack@.contains(y) by {
                let t = choose|t: int| 0 <= t < stack0.len() && stack0[t] == y;
                assert(t < stack@.len());
                assert(stack@[t] == y);
            }
        }
        if live && !already {
            let ghost s0 = seen;
            let ghost ops0 = seen_ops@;
            let ghost roots0 = seen_roots@;
            proof {
                lemma_counts_insert(*g, s0, it);
                lemma_counts_bounded(*g, s0);
            }
            let (name, children) = if is_root {
                seen_roots.set(ptr, true);
                proof {
                    assert(seen_roots@ == roots0.update(ptr as int, true));
                    lemma_popcount_set(roots0, ptr as int);
                    lemma_popcount_le(seen_roots@);
                }
                let r = &g.roots[ptr];
                let name: Option<&'static str> = match r {
                    Root::Function(_) => Some("Function"),
                    Root::Evaluator(_) => Some("Evaluator"),
                    Root::Nil(_) => None,
                };
                (name, root_children_exec(r))
            } else {
                seen_ops.set(ptr, true);
                proof {
                    assert(seen_ops@ == ops0.update(ptr as int, true));
                    lemma_popcount_set(ops0, ptr as int);
                    lemma_popcount_le(seen_ops@);
                }
                (op_kind(&g.ops[ptr]), g.ops[ptr].children())
            };
            proof {
                seen = s0.insert(it);
                assert forall|y: Item| #[trigger] seen.contains(y) <==> (if y.0 {
                    y.1 < g.roots.len() && seen_roots@[y.1 as int]
                } else {
                    y.1 < g.ops.len() && seen_ops@[y.1 as int]
                }) by {}
            }
            match name {
                Some(n) => if is_root {
                    stats.record_root(n);
                } else {
                    stats.record_op(n);
                },
                None => {},
            }
            let ghost stack1 = stack@;
            push_children(&mut stack, &children);
            proof {
                let n = choose|n: nat| reach_within(*g, it, n);
                let pushed = children@.map_values(|l: Link<Op>| (false, l.ptr));
                assert forall|j: int| 0 <= j < stack.len() implies reachable(*g, #[trigger] stack@[j]) by {
                    if j >= stack1.len() {
                        let c = j - stack1.len();
                        assert(stack@[j] == pushed[c]);
                        assert(pushed[c] == (false, item_children(*g, it)[c].ptr));
                        assert(reach_within(*g, stack@[j], n + 1));
                    } else {
                        assert(stack@[j] == stack1[j]);
                    }
                }
                assert forall|y: Item| stack1.contains(y) implies stack@.contains(y) by {
                    let t = choose|t: int| 0 <= t < stack1.len() && stack1[t] == y;
                    assert(stack@[t] == y);
                }
                assert forall|j: int| 0 <= j < item_children(*g, it).len() implies stack@.contains((false, item_children(*g, it)[j].ptr)) by {
                    assert(stack@[stack1.len() + j] == pushed[j]);
                }
                assert forall|x: Item, j: int|
                    seen.contains(x) && 0 <= j < item_children(*g, x).len() && item_live(*g, (false, item_children(*g, x)[j].ptr))
                        implies #[trigger] seen.contains((false, item_children(*g, x)[j].ptr)) || stack@.contains((false, item_children(*g, x)[j].ptr)) by {
                    if x != it {
                        assert(s0.contains(x));
                    }
                }
                assert forall|name: Seq<char>| #[trigger] stats.count(name) == named(*g, seen, name).len() by {
                    assert(named(*g, s0.insert(it), name).len() == named(*g, s0, name).len() + (
                        if kind_name(*g, it) matches Some(k) && k@ == name {
                            1int
                        } else {
                            0int
                        }));
                }
            }
        } else {
            proof {
                assert forall|x: Item, j: int|
                    seen.contains(x) && 0 <= j < item_children(*g, x).len() && item_live(*g, (false, item_children(*g, x)[j].ptr))
                        implies #[trigger] seen.contains((false, item_children(*g, x)[j].ptr)) || stack@.contains((false, item_children(*g, x)[j].ptr)) by {
                }
            }
        }
    }
    proof {
        lemma_reached_seen(*g, seen);
    }
    stats
}

/// The op is reached from the ops of `start` through operands, in at most `n` steps.
pub open spec fn op_reach_within(g: Graph, start: Seq<Link<Op>>, p: int, n: nat) -> bool
    decreases n,
{
    ||| exists|i: int| 0 <= i < start.len() && (#[trigger] start[i]).ptr == p
    ||| (n > 0 && exists|q: int, j: int|
        op_reach_within(g, start, q, (n - 1) as nat) && 0 <= q < g.ops.len() && 0 <= j < op_children(g.ops@[q]).len()
            && (#[trigger] op_children(g.ops@[q])[j]).ptr == p)
}

/// The op is reached from the ops of `start` through operands.
pub open spec fn op_reachable(g: Graph, start: Seq<Link<Op>>, p: int) -> bool {
    exists|n: nat| op_reach_within(g, start, p, n)
}

/// The body of a function root (nothing for another root).
pub open spec fn function_body(g: Graph, r: int) -> Seq<Link<Op>> {
    match g.roots@[r] {
        Root::Function(f) => f.body@,
        _ => seq![],
    }
}

/// The op may stand in a shareable body: a shareable op, or a call of a function.
pub open spec fn op_fine(g: Graph, p: int) -> bool {
    match g.ops@[p] {
        Op::Call(c) => c.function.ptr < g.roots.len() && g.roots@[c.function.ptr as int] is Function,
        op => shareable(op),
    }
}

/// The root is a function whose body reaches only ops that may stand in a shareable body.
pub open spec fn root_fine(g: Graph, r: int) -> bool {
    &&& 0 <= r < g.roots.len()
    &&& g.roots@[r] is Function
    &&& forall|p: int| 0 <= p < g.ops.len() && op_reachable(g, function_body(g, r), p) ==> #[trigger] op_fine(g, p)
}

/// The body of the root `r` calls the root `r2`.
pub open spec fn calls(g: Graph, r: int, r2: int) -> bool {
    exists|p: int|
        0 <= p < g.ops.len() && op_reachable(g, function_body(g, r), p) && (#[trigger] g.ops@[p] matches Op::Call(c)
            && c.function.ptr == r2)
}

/// The root is shareable through `k` levels of calls: it is fine, and so are the roots it calls
/// through `k - 1` levels.
pub open spec fn shareable_within(g: Graph, r: int, k: nat) -> bool
    decreases k,
{
    &&& k > 0
    &&& root_fine(g, r)
    &&& forall|r2: int| #[trigger] calls(g, r, r2) ==> shareable_within(g, r2, (k - 1) as nat)
}

/// The root is shareable: shareable through as many levels of calls as there are roots, so
/// that no chain of calls from it comes back to a root on it.
pub open spec fn root_shareable(g: Graph, r: int) -> bool {
    shareable_within(g, r, g.roots.len() as nat)
}

/// The ops reached from the ops of `start` through operands, as a mask over the op slots.
fn reach_mask(g: &Graph, start: &Vec<Link<Op>>) -> (mask: Vec<bool>)
    requires
        g.wf(),
        forall|i: int| 0 <= i < start.len() ==> (#[trigger] start@[i]).ptr < g.ops.len(),
    ensures
        mask.len() == g.ops.len(),
        forall|p: int| 0 <= p < g.ops.len() ==> (#[trigger] mask@[p] <==> op_reachable(*g, start@, p)),
{
    let mut seen: Vec<bool> = Vec::new();
    while seen.len() < g.ops.len()
        invariant
            seen.len() <= g.ops.len(),
            forall|i: int| 0 <= i < seen.len() ==> !(#[trigger] seen@[i]),
        decreases g.ops.len() - seen.len(),
    {
        seen.push(false);
    }
    proof {
        lemma_popcount_all_false(seen@);
    }
    let mut stack: Vec<usize> = Vec::new();
    let mut i: usize = 0;
    while i < start.len()
        invariant
            i <= start.len(),
            forall|k: int| 0 <= k < start.len() ==> (#[trigger] start@[k]).ptr < g.ops.len(),
            stack@ == start@.take(i as int).map_values(|l: Link<Op>| l.ptr),
        decreases start.len() - i,
    {
        stack.push(start[i].ptr);
        i = i + 1;
        assert(stack@ =~= start@.take(i as int).map_values(|l: Link<Op>| l.ptr));
    }
    proof {
        assert(start@.take(i as int) =~= start@);
        assert forall|j: int| 0 <= j < stack.len() implies op_reachable(*g, start@, #[trigger] stack@[j] as int) by {
            assert(op_reach_within(*g, start@, stack@[j] as int, 0));
        }
        assert forall|k: int| 0 <= k < start.len() implies stack@.contains((#[trigger] start@[k]).ptr) by {
            assert(stack@[k] == start@[k].ptr);
        }
    }
    while stack.len() > 0
        invariant
            g.wf(),
            seen.len() == g.ops.len(),
            forall|k: int| 0 <= k < start.len() ==> (#[trigger] start@[k]).ptr < g.ops.len(),
            forall|p: int| 0 <= p < g.ops.len() && #[trigger] seen@[p] ==> op_reachable(*g, start@, p),
            forall|j: int| 0 <= j < stack.len() ==> (#[trigger] stack@[j]) < g.ops.len() && op_reachable(*g, start@, stack@[j] as int),
            forall|k: int| 0 <= k < start.len() ==> seen@[(#[trigger] start@[k]).ptr as int] || stack@.contains(start@[k].ptr),
            forall|q: int, j: int|
                0 <= q < g.ops.len() && seen@[q] && 0 <= j < op_children(g.ops@[q]).len() ==> seen@[(#[trigger] op_children(g.ops@[q])[j]).ptr as int]
                    || stack@.contains(op_children(g.ops@[q])[j].ptr),
        decreases g.ops.len() - popcount(seen@), stack.len(),
    {
        proof {
            lemma_popcount_le(seen@);
        }
        let ghost stack0 = stack@;
        let p = stack.pop().unwrap();
        proof {
            assert(stack0 =~= stack@.push(p));
            assert forall|y: usize| stack0.contains(y) && y != p implies stack@.contains(y) by {
                let t = choose|t: int| 0 <= t < stack0.len() && stack0[t] == y;
                assert(stack@[t] == y);
            }
        }
        if !seen[p] {
            let ghost seen0 = seen@;
            seen.set(p, true);
            proof {
                assert(seen@ == seen0.update(p as int, true));
                lemma_popcount_set(seen0, p as int);
                lemma_popcount_le(seen@);
            }
            let children = g.ops[p].children();
            let ghost stack1 = stack@;
            let mut k: usize = 0;
            while k < children.len()
                invariant
                    k <= children.len(),
                    children@ == op_children(g.ops@[p as int]),
                    stack@.len() == stack1.len() + k,
                    forall|t: int| 0 <= t < stack1.len() ==> stack@[t] == stack1[t],
                    forall|t: int| 0 <= t < k ==> stack@[stack1.len() + t] == (#[trigger] children@[t]).ptr,
                decreases children.len() - k,
            {
                stack.push(children[k].ptr);
                k = k + 1;
            }
            proof {
                let n = choose|n: nat| op_reach_within(*g, start@, p as int, n);
                assert forall|j: int| 0 <= j < stack.len() implies (#[trigger] stack@[j]) < g.ops.len() && op_reachable(*g, start@, stack@[j] as int) by {
                    if j >= stack1.len() {
                        let c = j - stack1.len();
                        assert(stack@[j] == children@[c].ptr);
                        assert(op_children(g.ops@[p as int])[c] == children@[c]);
                        assert(op_reach_within(*g, start@, stack@[j] as int, n + 1));
                    } else {
                        assert(stack@[j] == stack1[j]);
                    }
                }
                assert forall|y: usize| stack1.contains(y) implies stack@.contains(y) by {
                    let t = choose|t: int| 0 <= t < stack1.len() && stack1[t] == y;
                    assert(stack@[t] == y);
                }
                assert forall|j: int| 0 <= j < op_children(g.ops@[p as int]).len() implies stack@.contains(op_children(g.ops@[p as int])[j].ptr) by {
                    assert(stack@[stack1.len() + j] == children@[j].ptr);
                }
            }
        }
    }
    proof {
        assert forall|p: int| 0 <= p < g.ops.len() && op_reachable(*g, start@, p) implies #[trigger] seen@[p] by {
            let n = choose|n: nat| op_reach_within(*g, start@, p, n);
            lemma_reach_mask(*g, start@, seen@, p, n);
        }
    }
    seen
}

proof fn lemma_reach_mask(g: Graph, start: Seq<Link<Op>>, seen: Seq<bool>, p: int, n: nat)
    requires
        g.wf(),
        seen.len() == g.ops.len(),
        forall|k: int| 0 <= k < start.len() ==> (#[trigger] start[k]).ptr < g.ops.len() && seen[start[k].ptr as int],
        forall|q: int, j: int|
            0 <= q < g.ops.len() && seen[q] && 0 <= j < op_children(g.ops@[q]).len() ==> seen[(#[trigger] op_children(g.ops@[q])[j]).ptr as int],
        0 <= p < g.ops.len(),
        op_reach_within(g, start, p, n),
    ensures
        seen[p],
    decreases n,
{
    if !(exists|i: int| 0 <= i < start.len() && (#[trigger] start[i]).ptr == p) {
        let (q, j) = choose|q: int, j: int|
            op_reach_within(g, start, q, (n - 1) as nat) && 0 <= q < g.ops.len() && 0 <= j < op_children(g.ops@[q]).len()
                && (#[trigger] op_children(g.ops@[q])[j]).ptr == p;
        lemma_reach_mask(g, start, seen, q, (n - 1) as nat);
    } else {
        let i = choose|i: int| 0 <= i < start.len() && (#[trigger] start[i]).ptr == p;
    }
}

/// May the op stand in a shareable body?
fn op_fine_exec(g: &Graph, p: usize) -> (r: bool)
    requires
        p < g.ops.len(),
    ensures
        r == op_fine(*g, p as int),
{
    match &g.ops[p] {
        Op::Call(c) => c.function.ptr < g.roots.len() && matches!(g.roots[c.function.ptr], Root::Function(_)),
        op => is_shareable_op(op),
    }
}

/// Whether the root is fine, and the roots its body calls.
fn root_summary(g: &Graph, r: usize) -> (res: (bool, Vec<usize>))
    requires
        g.wf(),
        r < g.roots.len(),
    ensures
        res.0 == root_fine(*g, r as int),
        forall|r2: usize| calls(*g, r as int, r2 as int) <==> #[trigger] res.1@.contains(r2),
        forall|j: int| 0 <= j < res.1.len() ==> calls(*g, r as int, #[trigger] res.1@[j] as int),
{
    let body: Vec<Link<Op>> = match &g.roots[r] {
        Root::Function(f) => copy_vec(&f.body),
        _ => Vec::new(),
    };
    proof {
        assert(body@ == function_body(*g, r as int));
        assert forall|i: int| 0 <= i < body.len() implies (#[trigger] body@[i]).ptr < g.ops.len() by {
            assert(root_children(g.roots@[r as int])[i] == body@[i]);
        }
    }
    let mask = reach_mask(g, &body);
    let is_function = matches!(g.roots[r], Root::Function(_));
    let mut fine = is_function;
    let mut callees: Vec<usize> = Vec::new();
    let mut p: usize = 0;
    while p < g.ops.len()
        invariant
            g.wf(),
            r < g.roots.len(),
            body@ == function_body(*g, r as int),
            mask.len() == g.ops.len(),
            forall|q: int| 0 <= q < g.ops.len() ==> (#[trigger] mask@[q] <==> op_reachable(*g, body@, q)),
            p <= g.ops.len(),
            is_function == (g.roots@[r as int] is Function),
            fine == (is_function && forall|q: int| 0 <= q < p && op_reachable(*g, body@, q) ==> #[trigger] op_fine(*g, q)),
            forall|r2: usize|
                (exists|q: int| 0 <= q < p && op_reachable(*g, body@, q) && (#[trigger] g.ops@[q] matches Op::Call(c)
                    && c.function.ptr == r2)) <==> #[trigger] callees@.contains(r2),
            forall|j: int| 0 <= j < callees.len() ==> calls(*g, r as int, #[trigger] callees@[j] as int),
        decreases g.ops.len() - p,
    {
        if mask[p] {
            if !op_fine_exec(g, p) {
                fine = false;
            }
            if let Op::Call(c) = &g.ops[p] {
                let ghost before = callees@;
                callees.push(c.function.ptr);
                proof {
                    lemma_push_keeps(before, c.function.ptr);
                    assert(calls(*g, r as int, c.function.ptr as int));
                    assert forall|r2: usize|
                        (exists|q: int| 0 <= q < p + 1 && op_reachable(*g, body@, q) && (#[trigger] g.ops@[q] matches Op::Call(c)
                            && c.function.ptr == r2)) <==> #[trigger] callees@.contains(r2) by {
                        if callees@.contains(r2) && r2 != c.function.ptr {
                            let t = choose|t: int| 0 <= t < callees.len() && callees@[t] == r2;
                            assert(t < before.len());
                            assert(before.contains(r2));
                        }
                    }
                }
            }
        }
        p = p + 1;
    }
    (fine, callees)
}

/// Conservative shareability predicate for roots: only functions with fully shareable bodies
/// are shareable, and calls only to shareable functions, with no chain of calls coming back to
/// a root on it (see [root_shareable]). Decided level of calls by level.
pub fn is_shareable_root(g: &Graph, root: &Link<Root>) -> (r: bool)
    requires
        g.wf(),
    ensures
        r == root_shareable(*g, root.ptr as int),
{
    let n = g.roots.len();
    let mut fine: Vec<bool> = Vec::new();
    let mut callees: Vec<Vec<usize>> = Vec::new();
    let mut i: usize = 0;
    while i < n
        invariant
            g.wf(),
            n == g.roots.len(),
            i <= n,
            fine.len() == i,
            callees.len() == i,
            forall|x: int| 0 <= x < i ==> #[trigger] fine@[x] == root_fine(*g, x),
            forall|x: int, r2: usize| 0 <= x < i ==> (calls(*g, x, r2 as int) <==> #[trigger] callees@[x]@.contains(r2)),
            forall|x: int, j: int| 0 <= x < i && 0 <= j < callees@[x].len() ==> calls(*g, x, #[trigger] callees@[x]@[j] as int),
        decreases n - i,
    {
        let (f, c) = root_summary(g, i);
        fine.push(f);
        callees.push(c);
        i = i + 1;
    }
    let mut good: Vec<bool> = Vec::new();
    while good.len() < n
        invariant
            good.len() <= n,
            forall|x: int| 0 <= x < good.len() ==> !(#[trigger] good@[x]),
        decreases n - good.len(),
    {
        good.push(false);
    }
    let mut k: usize = 0;
    while k < n
        invariant
            g.wf(),
            n == g.roots.len(),
            k <= n,
            fine.len() == n,
            callees.len() == n,
            good.len() == n,
            forall|x: int| 0 <= x < n ==> #[trigger] fine@[x] == root_fine(*g, x),
            forall|x: int, r2: usize| 0 <= x < n ==> (calls(*g, x, r2 as int) <==> #[trigger] callees@[x]@.contains(r2)),
            forall|x: int, j: int| 0 <= x < n && 0 <= j < callees@[x].len() ==> calls(*g, x, #[trigger] callees@[x]@[j] as int),
            forall|x: int| 0 <= x < n ==> #[trigger] good@[x] == shareable_within(*g, x, k as nat),
        decreases n - k,
    {
        let mut next: Vec<bool> = Vec::new();
        let mut x: usize = 0;
        while x < n
            invariant
                g.wf(),
                n == g.roots.len(),
                k < n,
                x <= n,
                next.len() == x,
                fine.len() == n,
                callees.len() == n,
                good.len() == n,
                forall|y: int| 0 <= y < n ==> #[trigger] fine@[y] == root_fine(*g, y),
                forall|y: int, r2: usize| 0 <= y < n ==> (calls(*g, y, r2 as int) <==> #[trigger] callees@[y]@.contains(r2)),
                forall|y: int, j: int| 0 <= y < n && 0 <= j < callees@[y].len() ==> calls(*g, y, #[trigger] callees@[y]@[j] as int),
                forall|y: int| 0 <= y < n ==> #[trigger] good@[y] == shareable_within(*g, y, k as nat),
                forall|y: int| 0 <= y < x ==> #[trigger] next@[y] == shareable_within(*g, y, (k + 1) as nat),
            decreases n - x,
        {
            let cs = &callees[x];
            let mut ok = fine[x];
            let mut j: usize = 0;
            while j < cs.len()
                invariant
                    n == g.roots.len(),
                    x < n,
                    j <= cs.len(),
                    *cs == callees@[x as int],
                    good.len() == n,
                    forall|y: int| 0 <= y < n ==> #[trigger] good@[y] == shareable_within(*g, y, k as nat),
                    ok == (fine@[x as int] && forall|t: int| 0 <= t < j ==> (#[trigger] cs@[t]) < n && good@[cs@[t] as int]),
                decreases cs.len() - j,
            {
                let c = cs[j];
                if !(c < n && good[c]) {
                    ok = false;
                }
                j = j + 1;
            }
            proof {
                let xi = x as int;
                if fine@[xi] {
                    assert forall|r2: int| #[trigger] calls(*g, xi, r2) implies 0 <= r2 < n by {
                        let p = choose|p: int|
                            0 <= p < g.ops.len() && op_reachable(*g, function_body(*g, xi), p) && (#[trigger] g.ops@[p] matches Op::Call(c)
                                && c.function.ptr == r2);
                        assert(op_fine(*g, p));
                    }
                    if ok {
                        assert forall|r2: int| #[trigger] calls(*g, xi, r2) implies shareable_within(*g, r2, k as nat) by {
                            let p = choose|p: int|
                                0 <= p < g.ops.len() && op_reachable(*g, function_body(*g, xi), p) && (#[trigger] g.ops@[p] matches Op::Call(c)
                                    && c.function.ptr == r2);
                            let u = r2 as usize;
                            assert(calls(*g, xi, u as int));
                            assert(cs@.contains(u));
                            let t = choose|t: int| 0 <= t < cs.len() && cs@[t] == u;
                            assert(cs@[t] < n && good@[cs@[t] as int]);
                        }
                    } else {
                        let t = choose|t: int| !(0 <= t < cs.len() ==> (#[trigger] cs@[t]) < n && good@[cs@[t] as int]);
                        assert(calls(*g, xi, cs@[t] as int));
                        assert(!shareable_within(*g, cs@[t] as int, k as nat)) by {
                            if cs@[t] < n {
                            } else {
                                assert(!root_fine(*g, cs@[t] as int));
                            }
                        }
                    }
                }
            }
            next.push(ok);
            x = x + 1;
        }
        good = next;
        k = k + 1;
    }
    if root.ptr < n {
        good[root.ptr]
    } else {
        proof {
            assert(!root_fine(*g, root.ptr as int));
        }
        false
    }
}

/// A root on a cycle of calls is not shareable: when each root of `cycle` calls the next, and
/// the last calls the first, none of them is shareable.
pub proof fn law_call_cycle_not_shareable(g: Graph, cycle: Seq<int>, i: int)
    requires
        cycle.len() > 0,
        forall|t: int| 0 <= t < cycle.len() ==> #[trigger] calls(g, cycle[t], cycle[(t + 1) % (cycle.len() as int)]),
        0 <= i < cycle.len(),
    ensures
        !root_shareable(g, cycle[i]),
{
    lemma_cycle_not_within(g, cycle, g.roots.len() as nat);
}

proof fn lemma_cycle_not_within(g: Graph, cycle: Seq<int>, k: nat)
    requires
        cycle.len() > 0,
        forall|t: int| 0 <= t < cycle.len() ==> #[trigger] calls(g, cycle[t], cycle[(t + 1) % (cycle.len() as int)]),
    ensures
        forall|i: int| 0 <= i < cycle.len() ==> !shareable_within(g, #[trigger] cycle[i], k),
    decreases k,
{
    if k > 0 {
        lemma_cycle_not_within(g, cycle, (k - 1) as nat);
        assert forall|i: int| 0 <= i < cycle.len() implies !shareable_within(g, #[trigger] cycle[i], k) by {
            let nxt = (i + 1) % (cycle.len() as int);
            assert(calls(g, cycle[i], cycle[nxt]));
            assert(0 <= nxt < cycle.len());
            assert(!shareable_within(g, cycle[nxt], (k - 1) as nat));
        }
    }
}

/// The links of the columns of the buses a table names, bus after bus in table order.
pub open spec fn bus_columns(g: Graph, t: Seq<(QualifiedIdentifier, Link<Bus>)>) -> Seq<Link<Op>>
    decreases t.len(),
{
    if t.len() == 0 {
        Seq::empty()
    } else {
        bus_columns(g, t.drop_last()) + g.buses@[t.last().1.ptr as int].columns@
    }
}

/// The links of the latches of the buses a table names, bus after bus in table order.
pub open spec fn bus_latches(g: Graph, t: Seq<(QualifiedIdentifier, Link<Bus>)>) -> Seq<Link<Op>>
    decreases t.len(),
{
    if t.len() == 0 {
        Seq::empty()
    } else {
        bus_latches(g, t.drop_last()) + g.buses@[t.last().1.ptr as int].latches@
    }
}

/// The ops of a list of links, as nodes.
pub open spec fn op_items(s: Seq<Link<Op>>) -> Seq<Item> {
    s.map_values(|l: Link<Op>| (false, l.ptr))
}

/// The roots of a table of declarations, as nodes.
pub open spec fn root_items(s: Seq<(QualifiedIdentifier, Link<Root>)>) -> Seq<Item> {
    s.map_values(|e: (QualifiedIdentifier, Link<Root>)| (true, e.1.ptr))
}

/// The roots of the graph that were asked for, in order: boundary constraints, integrity
/// constraints, the columns then the latches of the declared buses, functions, evaluators.
pub open spec fn selected_items(
    g: Graph,
    include_boundary: bool,
    include_integrity: bool,
    include_bus: bool,
    include_func: bool,
    include_eval: bool,
) -> Seq<Item> {
    (if include_boundary { op_items(g.boundary_constraints_roots@) } else { Seq::empty() })
        + (if include_integrity { op_items(g.integrity_constraints_roots@) } else { Seq::empty() })
        + (if include_bus { op_items(bus_columns(g, g.bus_table@)) + op_items(bus_latches(g, g.bus_table@)) } else { Seq::empty() })
        + (if include_func { root_items(g.functions@) } else { Seq::empty() })
        + (if include_eval { root_items(g.evaluators@) } else { Seq::empty() })
}

/// The node names an existing op or root.
pub open spec fn item_in_bounds(g: Graph, it: Item) -> bool {
    if it.0 {
        it.1 < g.roots.len()
    } else {
        it.1 < g.ops.len()
    }
}

/// `n` is the node view of the op or root (an empty one keeps no view).
pub open spec fn views_item(g: Graph, it: Item, n: Link<Node>) -> bool {
    if it.0 {
        g.roots@[it.1 as int] is Nil || root_node(g.roots@[it.1 as int]) == Some(n)
    } else {
        g.ops@[it.1 as int] is Nil || op_node(g.ops@[it.1 as int]) == Some(n)
    }
}

/// Append the ops of `links`.
fn push_op_items(r: &mut Vec<Item>, links: &Vec<Link<Op>>, Ghost(g): Ghost<Graph>)
    requires
        forall|j: int| 0 <= j < old(r).len() ==> item_in_bounds(g, #[trigger] old(r)@[j]),
        forall|j: int| 0 <= j < links.len() ==> (#[trigger] links@[j]).ptr < g.ops.len(),
    ensures
        final(r)@ == old(r)@ + op_items(links@),
        forall|j: int| 0 <= j < final(r).len() ==> item_in_bounds(g, #[trigger] final(r)@[j]),
{
    let ghost r0 = r@;
    let mut k: usize = 0;
    while k < links.len()
        invariant
            k <= links.len(),
            r@ == r0 + op_items(links@.take(k as int)),
            forall|j: int| 0 <= j < r.len() ==> item_in_bounds(g, #[trigger] r@[j]),
            forall|j: int| 0 <= j < links.len() ==> (#[trigger] links@[j]).ptr < g.ops.len(),
        decreases links.len() - k,
    {
        r.push((false, links[k].ptr));
        proof {
            assert(op_items(links@.take(k + 1)) =~= op_items(links@.take(k as int)).push((false, links@[k as int].ptr)));
        }
        k = k + 1;
    }
    assert(links@.take(links.len() as int) =~= links@);
}

/// Append the roots of a table of declarations.
fn push_root_items(r: &mut Vec<Item>, t: &Vec<(QualifiedIdentifier, Link<Root>)>, Ghost(g): Ghost<Graph>)
    requires
        forall|j: int| 0 <= j < old(r).len() ==> item_in_bounds(g, #[trigger] old(r)@[j]),
        forall|j: int| 0 <= j < t.len() ==> (#[trigger] t@[j]).1.ptr < g.roots.len(),
    ensures
        final(r)@ == old(r)@ + root_items(t@),
        forall|j: int| 0 <= j < final(r).len() ==> item_in_bounds(g, #[trigger] final(r)@[j]),
{
    let ghost r0 = r@;
    let mut k: usize = 0;
    while k < t.len()
        invariant
            k <= t.len(),
            r@ == r0 + root_items(t@.take(k as int)),
            forall|j: int| 0 <= j < r.len() ==> item_in_bounds(g, #[trigger] r@[j]),
            forall|j: int| 0 <= j < t.len() ==> (#[trigger] t@[j]).1.ptr < g.roots.len(),
        decreases t.len() - k,
    {
        r.push((true, t[k].1.ptr));
        proof {
            assert(root_items(t@.take(k + 1)) =~= root_items(t@.take(k as int)).push((true, t@[k as int].1.ptr)));
        }
        k = k + 1;
    }
    assert(t@.take(t.len() as int) =~= t@);
}

/// The roots asked for, as nodes in the graph.
fn select_items(
    g: &Graph,
    include_boundary: bool,
    include_integrity: bool,
    include_bus: bool,
    include_func: bool,
    include_eval: bool,
) -> (r: Vec<Item>)
    requires
        g.wf(),
    ensures
        r@ == selected_items(*g, include_boundary, include_integrity, include_bus, include_func, include_eval),
        forall|j: int| 0 <= j < r.len() ==> item_in_bounds(*g, #[trigger] r@[j]),
{
    let mut r: Vec<Item> = Vec::new();
    if include_boundary {
        push_op_items(&mut r, &g.boundary_constraints_roots, Ghost(*g));
    }
    let ghost after_boundary = r@;
    if include_integrity {
        push_op_items(&mut r, &g.integrity_constraints_roots, Ghost(*g));
    }
    let ghost after_integrity = r@;
    if include_bus {
        let t = &g.bus_table;
        let mut b: usize = 0;
        while b < t.len()
            invariant
                g.wf(),
                *t == g.bus_table,
                b <= t.len(),
                r@ == after_integrity + op_items(bus_columns(*g, t@.take(b as int))),
                forall|j: int| 0 <= j < r.len() ==> item_in_bounds(*g, #[trigger] r@[j]),
            decreases t.len() - b,
        {
            let bus = &g.buses[t[b].1.ptr];
            proof {
                let k = t@[b as int].1.ptr as int;
                assert forall|j: int| 0 <= j < bus.columns.len() implies (#[trigger] bus.columns@[j]).ptr < g.ops.len() by {
                    assert(g.buses@[k].columns@[j].ptr < g.ops.len());
                }
                assert(t@.take(b + 1).drop_last() =~= t@.take(b as int));
                assert(op_items(bus_columns(*g, t@.take(b + 1))) =~= op_items(bus_columns(*g, t@.take(b as int))) + op_items(bus.columns@));
            }
            push_op_items(&mut r, &bus.columns, Ghost(*g));
            b = b + 1;
        }
        assert(t@.take(t.len() as int) =~= t@);
        let ghost after_columns = r@;
        let mut b: usize = 0;
        while b < t.len()
            invariant
                g.wf(),
                *t == g.bus_table,
                b <= t.len(),
                r@ == after_columns + op_items(bus_latches(*g, t@.take(b as int))),
                forall|j: int| 0 <= j < r.len() ==> item_in_bounds(*g, #[trigger] r@[j]),
            decreases t.len() - b,
        {
            let bus = &g.buses[t[b].1.ptr];
            proof {
                let k = t@[b as int].1.ptr as int;
                assert forall|j: int| 0 <= j < bus.latches.len() implies (#[trigger] bus.latches@[j]).ptr < g.ops.len() by {
                    assert(g.buses@[k].latches@[j].ptr < g.ops.len());
                }
                assert(t@.take(b + 1).drop_last() =~= t@.take(b as int));
                assert(op_items(bus_latches(*g, t@.take(b + 1))) =~= op_items(bus_latches(*g, t@.take(b as int))) + op_items(bus.latches@));
            }
            push_op_items(&mut r, &bus.latches, Ghost(*g));
            b = b + 1;
        }
        assert(t@.take(t.len() as int) =~= t@);
        assert(op_items(bus_columns(*g, g.bus_table@)) + op_items(bus_latches(*g, g.bus_table@)) =~= r@.subrange(after_integrity.len() as int, r.len() as int));
    }
    let ghost after_bus = r@;
    if include_func {
        push_root_items(&mut r, &g.functions, Ghost(*g));
    }
    let ghost after_func = r@;
    if include_eval {
        push_root_items(&mut r, &g.evaluators, Ghost(*g));
    }
    proof {
        let s = selected_items(*g, include_boundary, include_integrity, include_bus, include_func, include_eval);
        assert(r@ =~= s);
    }
    r
}

/// The node views of the given ops and roots, made where they are missing.
fn items_as_nodes(g: &mut Graph, items: &Vec<Item>) -> (r: Vec<Link<Node>>)
    requires
        old(g).wf(),
        forall|j: int| 0 <= j < items.len() ==> item_in_bounds(*old(g), #[trigger] items@[j]),
    ensures
        final(g).wf(),
        frame(*old(g), *final(g)),
        final(g).ops.len() == old(g).ops.len(),
        final(g).roots.len() == old(g).roots.len(),
        r.len() == items.len(),
        forall|j: int| 0 <= j < items.len() ==> views_item(*final(g), #[trigger] items@[j], r@[j]),
{
    let ghost g0 = *g;
    let mut r: Vec<Link<Node>> = Vec::new();
    let mut i: usize = 0;
    while i < items.len()
        invariant
            g.wf(),
            frame(g0, *g),
            g.ops.len() == g0.ops.len(),
            g.roots.len() == g0.roots.len(),
            forall|j: int| 0 <= j < items.len() ==> item_in_bounds(g0, #[trigger] items@[j]),
            i <= items.len(),
            r.len() == i,
            forall|j: int| 0 <= j < i ==> views_item(*g, #[trigger] items@[j], r@[j]),
        decreases items.len() - i,
    {
        let ghost before = *g;
        let (is_root, ptr) = items[i];
        let n = if is_root {
            let l: Link<Root> = Link::new(ptr);
            l.as_node(g)
        } else {
            let l: Link<Op> = Link::new(ptr);
            l.as_node(g)
        };
        r.push(n);
        proof {
            assert forall|j: int| 0 <= j < i + 1 implies views_item(*g, #[trigger] items@[j], r@[j]) by {
                if j < i {
                    assert(views_item(before, items@[j], r@[j]));
                }
            }
        }
        i = i + 1;
    }
    r
}

/// Extract selected root nodes from the graph: boundary constraints, integrity constraints, the
/// columns then the latches of the declared buses, functions, evaluators, in that order.
pub fn extract_roots(
    g: &mut Graph,
    include_boundary: bool,
    include_integrity: bool,
    include_bus: bool,
    include_func: bool,
    include_eval: bool,
) -> (r: Vec<Link<Node>>)
    requires
        old(g).wf(),
    ensures
        final(g).wf(),
        frame(*old(g), *final(g)),
        final(g).ops.len() == old(g).ops.len(),
        final(g).roots.len() == old(g).roots.len(),
        ({
            let s = selected_items(*old(g), include_boundary, include_integrity, include_bus, include_func, include_eval);
            &&& r.len() == s.len()
            &&& forall|j: int| 0 <= j < s.len() ==> views_item(*final(g), #[trigger] s[j], r@[j])
        }),
{
    let items = select_items(g, include_boundary, include_integrity, include_bus, include_func, include_eval);
    items_as_nodes(g, &items)
}

/// Extract all root nodes from the graph.
pub fn extract_all_roots(g: &mut Graph) -> (r: Vec<Link<Node>>)
    requires
        old(g).wf(),
    ensures
        final(g).wf(),
        frame(*old(g), *final(g)),
        r.len() == selected_items(*old(g), true, true, true, true, true).len(),
        forall|j: int| 0 <= j < r.len() ==> views_item(*final(g), #[trigger] selected_items(*old(g), true, true, true, true, true)[j], r@[j]),
{
    extract_roots(g, true, true, true, true, true)
}

/// Extract boundary constraint roots.
pub fn extract_boundary_roots(g: &mut Graph) -> (r: Vec<Link<Node>>)
    requires
        old(g).wf(),
    ensures
        final(g).wf(),
        frame(*old(g), *final(g)),
        r.len() == selected_items(*old(g), true, false, false, false, false).len(),
        forall|j: int| 0 <= j < r.len() ==> views_item(*final(g), #[trigger] selected_items(*old(g), true, false, false, false, false)[j], r@[j]),
{
    extract_roots(g, true, false, false, false, false)
}

/// Extract integrity constraint roots.
pub fn extract_integrity_roots(g: &mut Graph) -> (r: Vec<Link<Node>>)
    requires
        old(g).wf(),
    ensures
        final(g).wf(),
        frame(*old(g), *final(g)),
        r.len() == selected_items(*old(g), false, true, false, false, false).len(),
        forall|j: int| 0 <= j < r.len() ==> views_item(*final(g), #[trigger] selected_items(*old(g), false, true, false, false, false)[j], r@[j]),
{
    extract_roots(g, false, true, false, false, false)
}

/// Extract bus constraint roots.
pub fn extract_bus_roots(g: &mut Graph) -> (r: Vec<Link<Node>>)
    requires
        old(g).wf(),
    ensures
        final(g).wf(),
        frame(*old(g), *final(g)),
        r.len() == selected_items(*old(g), false, false, true, false, false).len(),
        forall|j: int| 0 <= j < r.len() ==> views_item(*final(g), #[trigger] selected_items(*old(g), false, false, true, false, false)[j], r@[j]),
{
    extract_roots(g, false, false, true, false, false)
}

/// Extract function roots.
pub fn extract_function_roots(g: &mut Graph) -> (r: Vec<Link<Node>>)
    requires
        old(g).wf(),
    ensures
        final(g).wf(),
        frame(*old(g), *final(g)),
        r.len() == selected_items(*old(g), false, false, false, true, false).len(),
        forall|j: int| 0 <= j < r.len() ==> views_item(*final(g), #[trigger] selected_items(*old(g), false, false, false, true, false)[j], r@[j]),
{
    extract_roots(g, false, false, false, true, false)
}

/// Extract evaluator roots.
pub fn extract_evaluator_roots(g: &mut Graph) -> (r: Vec<Link<Node>>)
    requires
        old(g).wf(),
    ensures
        final(g).wf(),
        frame(*old(g), *final(g)),
        r.len() == selected_items(*old(g), false, false, false, false, true).len(),
        forall|j: int| 0 <= j < r.len() ==> views_item(*final(g), #[trigger] selected_items(*old(g), false, false, false, false, true)[j], r@[j]),
{
    extract_roots(g, false, false, false, false, true)
}

} // verus!
