//! Common subexpression elimination: collapse repeated subtrees by canonicalizing ops bottom up
//! and interning identical structures, with a memo so that each op is visited once.
use vstd::prelude::*;

use std::collections::HashMap;

use crate::graph::{extends, op_node, op_owner, rank_above, root_children, root_ops_below, Graph};
use crate::interner::{
    access_key, interned, lemma_rank_above_prefix, lemma_value_key, op_key, ptrs, KeyView, OpInterner,
};
use crate::ir::{
    access_children, arms_children, op_children, Boundary, Bus, BusOp, Call, Enf, Evaluator, Fold,
    For, Function, If, MatchArm, MirAccessType, Op, Root,
};
use crate::link::Link;
use crate::mutation::{put_op, put_root, same_root_views};
use crate::passes::CompileError;
use crate::value::{clone_spanned, copy_vec, same_value};
use crate::views::{clone_op, op_node_of, op_owner_of};

verus! {

/// The two access types index the same way (by nothing, one index, or a row and a column).
pub open spec fn same_access_kind(a: MirAccessType, b: MirAccessType) -> bool {
    match (a, b) {
        (MirAccessType::Default, MirAccessType::Default) => true,
        (MirAccessType::Index(_), MirAccessType::Index(_)) => true,
        (MirAccessType::Matrix(_, _), MirAccessType::Matrix(_, _)) => true,
        _ => false,
    }
}

/// The two ops are of the same kind with the same fields, but for their operands, parents and
/// views.
pub open spec fn same_shape(a: Op, b: Op) -> bool {
    match (a, b) {
        (Op::Enf(x), Op::Enf(y)) => x.span == y.span,
        (Op::Boundary(x), Op::Boundary(y)) => x.kind == y.kind && x.span == y.span,
        (Op::Add(x), Op::Add(y)) => x.span == y.span,
        (Op::Sub(x), Op::Sub(y)) => x.span == y.span,
        (Op::Mul(x), Op::Mul(y)) => x.span == y.span,
        (Op::Exp(x), Op::Exp(y)) => x.span == y.span,
        (Op::If(x), Op::If(y)) => x.match_arms.len() == y.match_arms.len() && x.span == y.span,
        (Op::For(x), Op::For(y)) => {
            &&& x.iterators.len() == y.iterators.len()
            &&& (x.selector is Some) == (y.selector is Some)
            &&& x.owner_id == y.owner_id
            &&& x.span == y.span
        },
        (Op::Call(x), Op::Call(y)) => x.function == y.function && x.span == y.span,
        (Op::Fold(x), Op::Fold(y)) => x.operator == y.operator && x.span == y.span,
        (Op::Vector(x), Op::Vector(y)) => x.span == y.span,
        (Op::Matrix(x), Op::Matrix(y)) => x.span == y.span,
        (Op::Accessor(x), Op::Accessor(y)) => {
            &&& same_access_kind(x.access_type, y.access_type)
            &&& x.offset == y.offset
            &&& x.span == y.span
        },
        (Op::BusOp(x), Op::BusOp(y)) => {
            &&& x.bus == y.bus
            &&& x.kind == y.kind
            &&& x.args.len() == y.args.len()
            &&& x.span == y.span
        },
        (Op::Parameter(_), Op::Parameter(_)) => a == b,
        (Op::Value(x), Op::Value(y)) => x.value.span == y.value.span && same_value(
            x.value.value,
            y.value.value,
        ),
        (Op::Nil(_), Op::Nil(_)) => a == b,
        _ => false,
    }
}

/// `m[k]` (an op of `g`) is the canonical form of the op `k` of `g0`: an op of the same shape
/// whose operands are the canonical forms of the operands of `k`, ranking no higher than `k`;
/// it is `k` itself or an interned op.
pub open spec fn canonical_form(g0: Graph, g: Graph, m: Map<usize, Link<Op>>, k: usize) -> bool {
    let a = g0.ops@[k as int];
    let l = m[k];
    let b = g.ops@[l.ptr as int];
    &&& l.ptr < g.ops.len()
    &&& g.rank@[l.ptr as int] <= g0.rank@[k as int]
    &&& (l.ptr == k || op_key(b) is Some)
    &&& same_shape(a, b)
    &&& op_children(b).len() == op_children(a).len()
    &&& forall|j: int|
        0 <= j < op_children(a).len() ==> m.contains_key((#[trigger] op_children(a)[j]).ptr)
            && op_children(b)[j].ptr == m[op_children(a)[j].ptr].ptr
}

/// The op is of a kind that CSE interns: arithmetic, vectors, matrices, accessors and values.
pub open spec fn interned_kind(op: Op) -> bool {
    op is Add || op is Sub || op is Mul || op is Exp || op is Vector || op is Matrix || op is Accessor
        || op is Value
}

/// Every memoized op of an interned kind has a canonical form with a key, the op the interner
/// holds under that key.
pub open spec fn memo_interned(g0: Graph, g: Graph, s: OpInterner, m: Map<usize, Link<Op>>) -> bool {
    &&& forall|k: usize|
        #[trigger] m.contains_key(k) && interned_kind(g0.ops@[k as int]) ==> op_key(g.ops@[m[k].ptr as int]) is Some
    &&& forall|k: usize|
        #[trigger] m.contains_key(k) && op_key(g.ops@[m[k].ptr as int]) is Some ==> s.lookup(
            op_key(g.ops@[m[k].ptr as int])->Some_0,
        ) == Some(m[k])
}

/// The state of canonicalization of `g0`, now `g`: both graphs are well formed, and so is the
/// memo (see [memo_ok]).
pub open spec fn cse_inv(g0: Graph, g: Graph, s: OpInterner, m: Map<usize, Link<Op>>) -> bool {
    &&& g0.wf()
    &&& g.wf()
    &&& memo_ok(g0, g, s, m)
}

/// The interner is well formed, every memoized op has its canonical form, and every other op of
/// `g0` is as it was.
#[verifier::opaque]
pub open spec fn memo_ok(g0: Graph, g: Graph, s: OpInterner, m: Map<usize, Link<Op>>) -> bool {
    &&& s.wf(g)
    &&& g0.ops.len() <= g.ops.len()
    &&& forall|i: int| 0 <= i < g0.ops.len() ==> g.rank@[i] == g0.rank@[i]
    &&& forall|k: usize| #[trigger] m.contains_key(k) ==> k < g0.ops.len() && canonical_form(g0, g, m, k)
    &&& forall|i: int| 0 <= i < g0.ops.len() && !m.contains_key(i as usize) ==> g.ops@[i] == g0.ops@[i]
    &&& memo_interned(g0, g, s, m)
}

/// From `g1` and `m1` to `g2` and `m2`, canonicalization appended ops (see [grew_core]) and
/// changed nothing but ops.
pub open spec fn cse_grew(
    g0: Graph,
    g1: Graph,
    g2: Graph,
    m1: Map<usize, Link<Op>>,
    m2: Map<usize, Link<Op>>,
    bound: nat,
) -> bool {
    &&& g1.ops.len() <= g2.ops.len()
    &&& grew_core(g0, g1, g2, m1, m2, bound)
    &&& g2.roots == g1.roots
    &&& g2.root_dropped == g1.root_dropped
    &&& g2.nodes == g1.nodes
    &&& g2.owners == g1.owners
    &&& g2.buses == g1.buses
    &&& g2.boundary_constraints_roots == g1.boundary_constraints_roots
    &&& g2.integrity_constraints_roots == g1.integrity_constraints_roots
    &&& g2.functions == g1.functions
    &&& g2.evaluators == g1.evaluators
    &&& g2.bus_table == g1.bus_table
}

/// Canonicalization kept the ranks and liveness of the ops of `g1` and what was memoized,
/// memoized new ops of `g0` ranking below `bound`, and rewrote in place only ops it newly
/// memoized, which are not interned kinds.
#[verifier::opaque]
pub open spec fn grew_core(
    g0: Graph,
    g1: Graph,
    g2: Graph,
    m1: Map<usize, Link<Op>>,
    m2: Map<usize, Link<Op>>,
    bound: nat,
) -> bool {
    &&& forall|i: int| 0 <= i < g1.ops.len() ==> g2.rank@[i] == g1.rank@[i]
    &&& forall|k: usize| #[trigger] m1.contains_key(k) ==> m2.contains_key(k) && m2[k] == m1[k]
    &&& forall|k: usize| #[trigger] m2.contains_key(k) && !m1.contains_key(k) ==> g0.rank@[k as int] < bound
    &&& forall|i: int|
        0 <= i < g1.ops.len() ==> g2.ops@[i] == g1.ops@[i] || (i < g0.ops.len() && m2.contains_key(
            i as usize,
        ) && !m1.contains_key(i as usize) && op_key(g1.ops@[i]) is None && op_key(g2.ops@[i]) is None)
    &&& g2.op_dropped@.take(g1.ops.len() as int) == g1.op_dropped@
}

/// What was memoized stays memoized.
proof fn lemma_grew_keeps(
    g0: Graph,
    g1: Graph,
    g2: Graph,
    m1: Map<usize, Link<Op>>,
    m2: Map<usize, Link<Op>>,
    bound: nat,
    c: usize,
)
    requires
        cse_grew(g0, g1, g2, m1, m2, bound),
        m1.contains_key(c),
    ensures
        m2.contains_key(c),
        m2[c] == m1[c],
{
    reveal(grew_core);
}

/// A bound on the ranks of new memoized ops can be raised.
proof fn lemma_grew_weaken(
    g0: Graph,
    g1: Graph,
    g2: Graph,
    m1: Map<usize, Link<Op>>,
    m2: Map<usize, Link<Op>>,
    b1: nat,
    b2: nat,
)
    requires
        cse_grew(g0, g1, g2, m1, m2, b1),
        b1 <= b2,
    ensures
        cse_grew(g0, g1, g2, m1, m2, b2),
{
    reveal(grew_core);
}

/// An op ranking at least `bound` and not memoized before is not memoized after.
proof fn lemma_grew_excludes(
    g0: Graph,
    g1: Graph,
    g2: Graph,
    m1: Map<usize, Link<Op>>,
    m2: Map<usize, Link<Op>>,
    bound: nat,
    p: usize,
)
    requires
        cse_grew(g0, g1, g2, m1, m2, bound),
        !m1.contains_key(p),
        g0.rank@[p as int] >= bound,
    ensures
        !m2.contains_key(p),
{
    reveal(grew_core);
}

/// The canonical form of a memoized op names a slot and ranks no higher than the op.
proof fn lemma_memo_get(g0: Graph, g: Graph, s: OpInterner, m: Map<usize, Link<Op>>, c: usize)
    requires
        cse_inv(g0, g, s, m),
        m.contains_key(c),
    ensures
        c < g0.ops.len(),
        m[c].ptr < g.ops.len(),
        g.rank@[m[c].ptr as int] <= g0.rank@[c as int],
{
    reveal(memo_ok);
}

/// An op not memoized is as it was.
proof fn lemma_unmemoized(g0: Graph, g: Graph, s: OpInterner, m: Map<usize, Link<Op>>, p: usize)
    requires
        cse_inv(g0, g, s, m),
        p < g0.ops.len(),
        !m.contains_key(p),
    ensures
        g.ops@[p as int] == g0.ops@[p as int],
        s.wf(g),
        g0.ops.len() <= g.ops.len(),
{
    reveal(memo_ok);
}

/// The interner of the state is well formed.
proof fn lemma_inv_interner(g0: Graph, g: Graph, s: OpInterner, m: Map<usize, Link<Op>>)
    requires
        cse_inv(g0, g, s, m),
    ensures
        s.wf(g),
        g0.ops.len() <= g.ops.len(),
        forall|i: int| 0 <= i < g0.ops.len() ==> g.rank@[i] == g0.rank@[i],
{
    reveal(memo_ok);
}

proof fn lemma_cse_grew_refl(g0: Graph, g: Graph, m: Map<usize, Link<Op>>, bound: nat)
    requires
        g.wf(),
    ensures
        cse_grew(g0, g, g, m, m, bound),
{
    reveal(grew_core);
    assert(g.op_dropped@.take(g.ops.len() as int) =~= g.op_dropped@);
}

proof fn lemma_cse_grew_trans(
    g0: Graph,
    g1: Graph,
    g2: Graph,
    g3: Graph,
    m1: Map<usize, Link<Op>>,
    m2: Map<usize, Link<Op>>,
    m3: Map<usize, Link<Op>>,
    b1: nat,
    b2: nat,
    bound: nat,
)
    requires
        g1.wf(),
        g2.wf(),
        g3.wf(),
        cse_grew(g0, g1, g2, m1, m2, b1),
        cse_grew(g0, g2, g3, m2, m3, b2),
        b1 <= bound,
        b2 <= bound,
    ensures
        cse_grew(g0, g1, g3, m1, m3, bound),
{
    reveal(grew_core);
    assert forall|i: int| 0 <= i < g1.ops.len() implies g3.ops@[i] == g1.ops@[i] || (i < g0.ops.len()
        && m3.contains_key(i as usize) && !m1.contains_key(i as usize) && op_key(g1.ops@[i]) is None
        && op_key(g3.ops@[i]) is None) by {
        let k = i as usize;
        if m1.contains_key(k) {
            assert(m2.contains_key(k));
        }
        if m2.contains_key(k) {
            assert(m3.contains_key(k));
        }
        if g2.ops@[i] != g1.ops@[i] {
            assert(m2.contains_key(k) && !m1.contains_key(k));
            assert(g3.ops@[i] == g2.ops@[i]);
        } else if g3.ops@[i] != g2.ops@[i] {
            assert(m3.contains_key(k) && !m2.contains_key(k));
        }
    }
    assert forall|k: usize| #[trigger] m3.contains_key(k) && !m1.contains_key(k) implies g0.rank@[k as int] < bound by {
        if m2.contains_key(k) {
        } else {
        }
    }
    let n1 = g1.ops.len() as int;
    let n2 = g2.ops.len() as int;
    assert forall|t: int| 0 <= t < n1 implies g3.op_dropped@[t] == g1.op_dropped@[t] by {
        assert(g3.op_dropped@.take(n2)[t] == g3.op_dropped@[t]);
        assert(g2.op_dropped@.take(n1)[t] == g2.op_dropped@[t]);
    }
    assert(g3.op_dropped@.take(n1) =~= g1.op_dropped@);
}

/// An op ranking just above operands that rank below `bound` ranks no higher than `bound`.
proof fn lemma_rank_above_le(rank: Seq<nat>, cs: Seq<Link<Op>>, bound: nat)
    requires
        forall|j: int| 0 <= j < cs.len() ==> rank[(#[trigger] cs[j]).ptr as int] < bound,
    ensures
        rank_above(rank, cs) <= bound,
    decreases cs.len(),
{
    if cs.len() > 0 {
        assert forall|j: int| 0 <= j < cs.drop_last().len() implies rank[(#[trigger] cs.drop_last()[j]).ptr as int] < bound by {
            assert(cs.drop_last()[j] == cs[j]);
        }
        lemma_rank_above_le(rank, cs.drop_last(), bound);
        assert(cs.last() == cs[cs.len() - 1]);
    }
}

/// The children of arms rewritten arm by arm are the rewritten children.
proof fn lemma_arms_children(a: Seq<MatchArm>, b: Seq<MatchArm>, m: Map<usize, Link<Op>>)
    requires
        a.len() == b.len(),
        forall|i: int|
            0 <= i < a.len() ==> m.contains_key((#[trigger] a[i]).condition.ptr) && m.contains_key(
                a[i].expr.ptr,
            ) && b[i].condition.ptr == m[a[i].condition.ptr].ptr && b[i].expr.ptr == m[a[i].expr.ptr].ptr,
    ensures
        arms_children(b).len() == arms_children(a).len(),
        arms_children(a).len() == 2 * a.len(),
        forall|j: int|
            0 <= j < arms_children(a).len() ==> m.contains_key((#[trigger] arms_children(a)[j]).ptr)
                && arms_children(b)[j].ptr == m[arms_children(a)[j].ptr].ptr,
    decreases a.len(),
{
    if a.len() > 0 {
        let a1 = a.drop_last();
        let b1 = b.drop_last();
        assert forall|i: int|
            0 <= i < a1.len() implies m.contains_key((#[trigger] a1[i]).condition.ptr) && m.contains_key(
                a1[i].expr.ptr,
            ) && b1[i].condition.ptr == m[a1[i].condition.ptr].ptr && b1[i].expr.ptr == m[a1[i].expr.ptr].ptr by {
            assert(a1[i] == a[i]);
            assert(b1[i] == b[i]);
        }
        lemma_arms_children(a1, b1, m);
        let n = a.len() - 1;
        let _ = a[n];
        assert forall|j: int|
            0 <= j < arms_children(a).len() implies m.contains_key((#[trigger] arms_children(a)[j]).ptr)
                && arms_children(b)[j].ptr == m[arms_children(a)[j].ptr].ptr by {
            if j < arms_children(a1).len() {
                assert(arms_children(a)[j] == arms_children(a1)[j]);
                assert(arms_children(b)[j] == arms_children(b1)[j]);
            }
        }
    }
}

/// The children of the arms are the conditions and expressions of the arms.
proof fn lemma_arms_children_of(a: Seq<MatchArm>)
    ensures
        arms_children(a).len() == 2 * a.len(),
        forall|i: int|
            0 <= i < a.len() ==> arms_children(a)[2 * i] == (#[trigger] a[i]).condition
                && arms_children(a)[2 * i + 1] == a[i].expr,
    decreases a.len(),
{
    if a.len() > 0 {
        lemma_arms_children_of(a.drop_last());
        assert forall|i: int|
            0 <= i < a.len() implies arms_children(a)[2 * i] == (#[trigger] a[i]).condition
                && arms_children(a)[2 * i + 1] == a[i].expr by {
            if i < a.len() - 1 {
                assert(a.drop_last()[i] == a[i]);
            }
        }
    }
}

/// Canonicalizes MIR ops and interns identical subtrees.
pub struct Cse;

impl Cse {
    /// Construct a new CSE pass instance.
    pub fn new() -> (r: Self)
        ensures
            r == Cse,
    {
        Cse
    }
}

impl Default for Cse {
    fn default() -> (r: Self)
        ensures
            r == Cse,
    {
        Cse::new()
    }
}

/// The interner and memo of one canonicalization.
pub struct CseState {
    pub interner: OpInterner,
    pub memo: HashMap<usize, Link<Op>>,
}

impl CseState {
    pub fn new() -> (r: Self)
        ensures
            r.memo@ == Map::<usize, Link<Op>>::empty(),
            forall|k: KeyView| r.interner.lookup(k) is None,
            r.interner.entries@.len() == 0,
    {
        CseState { interner: OpInterner::new(), memo: HashMap::new() }
    }
}

/// The interner stays well formed when the graph appends ops and rewrites only ops that are not
/// of an interned kind.
proof fn lemma_interner_frame(s: OpInterner, g1: Graph, g2: Graph)
    requires
        s.wf(g1),
        g1.wf(),
        g2.wf(),
        g1.ops.len() <= g2.ops.len(),
        forall|i: int| 0 <= i < g1.ops.len() ==> g2.rank@[i] == g1.rank@[i],
        forall|i: int| 0 <= i < g1.ops.len() && op_key(g1.ops@[i]) is Some ==> g2.ops@[i] == g1.ops@[i],
    ensures
        s.wf(g2),
{
    assert forall|i: int|
        0 <= i < s.entries.len() implies {
            let l = (#[trigger] s.entries@[i]).1;
            &&& l.ptr < g2.ops.len()
            &&& op_key(g2.ops@[l.ptr as int]) == Some(crate::interner::key_view(s.entries@[i].0))
            &&& g2.rank@[l.ptr as int] == rank_above(g2.rank@, op_children(g2.ops@[l.ptr as int]))
        } by {
        let l = s.entries@[i].1;
        lemma_rank_above_prefix(g1.rank@, g2.rank@, op_children(g1.ops@[l.ptr as int]));
    }
}

/// Appending ops keeps the state of canonicalization.
proof fn lemma_cse_extends(g0: Graph, g1: Graph, g2: Graph, s2: OpInterner, m: Map<usize, Link<Op>>, s1: OpInterner)
    requires
        cse_inv(g0, g1, s1, m),
        extends(g1, g2),
        s2.wf(g2),
        forall|kv: KeyView| #[trigger] s1.lookup(kv) is Some ==> s2.lookup(kv) == s1.lookup(kv),
    ensures
        cse_inv(g0, g2, s2, m),
        cse_grew(g0, g1, g2, m, m, 0),
{
    reveal(memo_ok);
    reveal(grew_core);
    assert forall|k: usize| #[trigger] m.contains_key(k) implies k < g0.ops.len() && canonical_form(g0, g2, m, k) by {
        assert(canonical_form(g0, g1, m, k));
        let l = m[k];
        assert(g2.ops@[l.ptr as int] == g1.ops@[l.ptr as int]);
    }
    assert forall|k: usize| #[trigger] m.contains_key(k) && op_key(g2.ops@[m[k].ptr as int]) is Some implies s2.lookup(
        op_key(g2.ops@[m[k].ptr as int])->Some_0,
    ) == Some(m[k]) by {
        assert(canonical_form(g0, g1, m, k));
        assert(g2.ops@[m[k].ptr as int] == g1.ops@[m[k].ptr as int]);
        assert(s1.lookup(op_key(g1.ops@[m[k].ptr as int])->Some_0) == Some(m[k]));
    }
    assert forall|k: usize| #[trigger] m.contains_key(k) && interned_kind(g0.ops@[k as int]) implies op_key(
        g2.ops@[m[k].ptr as int],
    ) is Some by {
        assert(canonical_form(g0, g1, m, k));
        assert(g2.ops@[m[k].ptr as int] == g1.ops@[m[k].ptr as int]);
    }
    assert(g2.op_dropped@.take(g1.ops.len() as int) =~= g1.op_dropped@);
}

/// Memoizing the canonical form of a new op `p` keeps the canonical forms memoized before.
proof fn lemma_memo_insert(g0: Graph, g: Graph, m: Map<usize, Link<Op>>, p: usize, l: Link<Op>)
    requires
        g0.wf(),
        forall|k: usize| #[trigger] m.contains_key(k) ==> k < g0.ops.len() && canonical_form(g0, g, m, k),
        !m.contains_key(p),
    ensures
        forall|k: usize| #[trigger] m.contains_key(k) ==> canonical_form(g0, g, m.insert(p, l), k),
{
    let m2 = m.insert(p, l);
    assert forall|k: usize| #[trigger] m.contains_key(k) implies canonical_form(g0, g, m2, k) by {
        assert(canonical_form(g0, g, m, k));
        let a = g0.ops@[k as int];
        assert forall|j: int| 0 <= j < op_children(a).len() implies m2.contains_key((#[trigger] op_children(a)[j]).ptr)
            && op_children(g.ops@[m2[k].ptr as int])[j].ptr == m2[op_children(a)[j].ptr].ptr by {
            assert(m.contains_key(op_children(a)[j].ptr));
        }
    }
}

/// The state after the canonical form `l` of the op `p` has been made (in `g`) and memoized.
proof fn lemma_finish(
    g0: Graph,
    gin: Graph,
    g1: Graph,
    g: Graph,
    s: OpInterner,
    min: Map<usize, Link<Op>>,
    m1: Map<usize, Link<Op>>,
    p: usize,
    l: Link<Op>,
)
    requires
        g0.wf(),
        gin.wf(),
        g1.wf(),
        g.wf(),
        cse_inv(g0, g1, s, m1),
        cse_grew(g0, gin, g1, min, m1, g0.rank@[p as int]),
        p < g0.ops.len(),
        !min.contains_key(p),
        !m1.contains_key(p),
        s.wf(g),
        g.ops.len() == g1.ops.len(),
        forall|i: int| 0 <= i < g1.ops.len() && i != p ==> g.ops@[i] == g1.ops@[i],
        g.ops@[p as int] != g1.ops@[p as int] ==> op_key(g1.ops@[p as int]) is None && op_key(g.ops@[p as int]) is None,
        g.rank == g1.rank,
        g.op_dropped == g1.op_dropped,
        g.roots == g1.roots,
        g.root_dropped == g1.root_dropped,
        g.nodes == g1.nodes,
        g.owners == g1.owners,
        g.buses == g1.buses,
        g.boundary_constraints_roots == g1.boundary_constraints_roots,
        g.integrity_constraints_roots == g1.integrity_constraints_roots,
        g.functions == g1.functions,
        g.evaluators == g1.evaluators,
        g.bus_table == g1.bus_table,
        l.ptr < g.ops.len(),
        g.rank@[l.ptr as int] <= g0.rank@[p as int],
        l.ptr == p || op_key(g.ops@[l.ptr as int]) is Some,
        l.ptr != p ==> g.ops@[p as int] == g1.ops@[p as int],
        same_shape(g0.ops@[p as int], g.ops@[l.ptr as int]),
        op_children(g.ops@[l.ptr as int]).len() == op_children(g0.ops@[p as int]).len(),
        forall|j: int|
            0 <= j < op_children(g0.ops@[p as int]).len() ==> m1.contains_key(
                (#[trigger] op_children(g0.ops@[p as int])[j]).ptr,
            ) && op_children(g.ops@[l.ptr as int])[j].ptr == m1[op_children(g0.ops@[p as int])[j].ptr].ptr,
        interned_kind(g0.ops@[p as int]) ==> op_key(g.ops@[l.ptr as int]) is Some,
        op_key(g.ops@[l.ptr as int]) matches Some(k) ==> s.lookup(k) == Some(l),
    ensures
        cse_inv(g0, g, s, m1.insert(p, l)),
        cse_grew(g0, gin, g, min, m1.insert(p, l), g0.rank@[p as int] + 1),
{
    reveal(memo_ok);
    reveal(grew_core);
    let m2 = m1.insert(p, l);
    assert forall|k: usize| #[trigger] m1.contains_key(k) implies canonical_form(g0, g, m1, k) by {
        assert(canonical_form(g0, g1, m1, k));
        let t = m1[k];
        if t.ptr == p {
            if t.ptr != k {
                assert(op_key(g1.ops@[t.ptr as int]) is Some);
            }
        }
    }
    lemma_memo_insert(g0, g, m1, p, l);
    assert(canonical_form(g0, g, m2, p)) by {
        let a = g0.ops@[p as int];
        assert forall|j: int| 0 <= j < op_children(a).len() implies m2.contains_key((#[trigger] op_children(a)[j]).ptr)
            && op_children(g.ops@[m2[p].ptr as int])[j].ptr == m2[op_children(a)[j].ptr].ptr by {
            assert(m1.contains_key(op_children(a)[j].ptr));
        }
    }
    assert forall|k: usize| #[trigger] m2.contains_key(k) implies k < g0.ops.len() && canonical_form(g0, g, m2, k) by {
        if k != p {
            assert(m1.contains_key(k));
        }
    }
    assert forall|i: int| 0 <= i < g0.ops.len() && !m2.contains_key(i as usize) implies g.ops@[i] == g0.ops@[i] by {
        assert(!m1.contains_key(i as usize));
    }
    assert forall|i: int| 0 <= i < gin.ops.len() implies g.ops@[i] == gin.ops@[i] || (i < g0.ops.len()
        && m2.contains_key(i as usize) && !min.contains_key(i as usize) && op_key(gin.ops@[i]) is None
        && op_key(g.ops@[i]) is None) by {
        let k = i as usize;
        if min.contains_key(k) {
            assert(m1.contains_key(k));
        }
        if i == p {
            if g1.ops@[i] != gin.ops@[i] {
                assert(m1.contains_key(k));
            }
        }
    }
    assert forall|k: usize| #[trigger] m2.contains_key(k) && !min.contains_key(k) implies g0.rank@[k as int] < g0.rank@[p as int] + 1 by {
        if k != p {
            assert(m1.contains_key(k));
        }
    }
    assert forall|k: usize| #[trigger] m2.contains_key(k) && interned_kind(g0.ops@[k as int]) implies op_key(
        g.ops@[m2[k].ptr as int],
    ) is Some by {
        if k != p {
            assert(m1.contains_key(k));
            assert(canonical_form(g0, g1, m1, k));
        }
    }
    assert forall|k: usize| #[trigger] m2.contains_key(k) && op_key(g.ops@[m2[k].ptr as int]) is Some implies s.lookup(
        op_key(g.ops@[m2[k].ptr as int])->Some_0,
    ) == Some(m2[k]) by {
        if k != p {
            assert(m1.contains_key(k));
            assert(canonical_form(g0, g1, m1, k));
        }
    }
}

/// The canonical forms of the ops `items`, which rank below `p`.
fn canon_list(
    g: &mut Graph,
    items: &Vec<Link<Op>>,
    st: &mut CseState,
    Ghost(g0): Ghost<Graph>,
    Ghost(p): Ghost<int>,
) -> (r: Vec<Link<Op>>)
    requires
        cse_inv(g0, *old(g), old(st).interner, old(st).memo@),
        0 <= p < g0.ops.len(),
        forall|j: int| 0 <= j < items.len() ==> (#[trigger] items@[j]).ptr < g0.ops.len() && g0.rank@[items@[j].ptr as int] < g0.rank@[p],
    ensures
        cse_inv(g0, *final(g), final(st).interner, final(st).memo@),
        cse_grew(g0, *old(g), *final(g), old(st).memo@, final(st).memo@, g0.rank@[p]),
        r.len() == items.len(),
        forall|j: int| 0 <= j < items.len() ==> final(st).memo@.contains_key((#[trigger] items@[j]).ptr)
            && r@[j] == final(st).memo@[items@[j].ptr],
    decreases g0.rank@[p], 1int,
{
    let mut r: Vec<Link<Op>> = Vec::new();
    let mut i: usize = 0;
    proof {
        lemma_cse_grew_refl(g0, *g, st.memo@, g0.rank@[p]);
    }
    while i < items.len()
        invariant
            cse_inv(g0, *g, st.interner, st.memo@),
            cse_grew(g0, *old(g), *g, old(st).memo@, st.memo@, g0.rank@[p]),
            old(g).wf(),
            0 <= p < g0.ops.len(),
            forall|j: int| 0 <= j < items.len() ==> (#[trigger] items@[j]).ptr < g0.ops.len() && g0.rank@[items@[j].ptr as int] < g0.rank@[p],
            i <= items.len(),
            r.len() == i,
            forall|j: int| 0 <= j < i ==> st.memo@.contains_key((#[trigger] items@[j]).ptr)
                && r@[j] == st.memo@[items@[j].ptr],
        decreases items.len() - i,
    {
        let ghost g1 = *g;
        let ghost m1 = st.memo@;
        let c = canonicalize_op(g, items[i], st, Ghost(g0));
        proof {
            lemma_cse_grew_trans(g0, *old(g), g1, *g, old(st).memo@, m1, st.memo@, g0.rank@[p], g0.rank@[items@[i as int].ptr as int] + 1, g0.rank@[p]);
            assert forall|j: int| 0 <= j < i implies st.memo@.contains_key((#[trigger] items@[j]).ptr)
                && r@[j] == st.memo@[items@[j].ptr] by {
                lemma_grew_keeps(g0, g1, *g, m1, st.memo@, g0.rank@[items@[i as int].ptr as int] + 1, items@[j].ptr);
            }
        }
        r.push(c);
        i = i + 1;
    }
    r
}

/// The op `p` of `g0` (from `gin` and `min`) is canonicalized to `r`, memoized in `m`.
pub open spec fn canonicalized(
    g0: Graph,
    gin: Graph,
    g: Graph,
    s: OpInterner,
    min: Map<usize, Link<Op>>,
    m: Map<usize, Link<Op>>,
    p: usize,
    r: Link<Op>,
) -> bool {
    &&& cse_inv(g0, g, s, m)
    &&& cse_grew(g0, gin, g, min, m, g0.rank@[p as int] + 1)
    &&& m.contains_key(p)
    &&& m[p] == r
    &&& interned_kind(g0.ops@[p as int]) ==> (op_key(g.ops@[r.ptr as int]) matches Some(k) && s.lookup(k) == Some(r))
}

/// The canonical form of a memoized op of an interned kind is the op interned under its key.
proof fn lemma_memo_interned(g0: Graph, g: Graph, s: OpInterner, m: Map<usize, Link<Op>>, p: usize)
    requires
        cse_inv(g0, g, s, m),
        m.contains_key(p),
    ensures
        interned_kind(g0.ops@[p as int]) ==> (op_key(g.ops@[m[p].ptr as int]) matches Some(k) && s.lookup(k) == Some(m[p])),
        memo_interned(g0, g, s, m),
{
    reveal(memo_ok);
}

/// The facts that make `l` (in `g`) the canonical form of the op `p` of `g0` under `m`.
pub open spec fn canonical_facts(g0: Graph, g: Graph, m: Map<usize, Link<Op>>, p: usize, l: Link<Op>) -> bool {
    &&& l.ptr < g.ops.len()
    &&& g.rank@[l.ptr as int] <= g0.rank@[p as int]
    &&& (l.ptr == p || op_key(g.ops@[l.ptr as int]) is Some)
    &&& same_shape(g0.ops@[p as int], g.ops@[l.ptr as int])
    &&& op_children(g.ops@[l.ptr as int]).len() == op_children(g0.ops@[p as int]).len()
    &&& forall|j: int|
        0 <= j < op_children(g0.ops@[p as int]).len() ==> m.contains_key(
            (#[trigger] op_children(g0.ops@[p as int])[j]).ptr,
        ) && op_children(g.ops@[l.ptr as int])[j].ptr == m[op_children(g0.ops@[p as int])[j].ptr].ptr
}

/// Memoize `l`, an op that is already in the graph, as the canonical form of `p`.
fn finish_interned(
    st: &mut CseState,
    g: &Graph,
    p: usize,
    l: Link<Op>,
    Ghost(g0): Ghost<Graph>,
    Ghost(gin): Ghost<Graph>,
    Ghost(min): Ghost<Map<usize, Link<Op>>>,
)
    requires
        gin.wf(),
        cse_inv(g0, *g, old(st).interner, old(st).memo@),
        cse_grew(g0, gin, *g, min, old(st).memo@, g0.rank@[p as int]),
        p < g0.ops.len(),
        !min.contains_key(p),
        !old(st).memo@.contains_key(p),
        canonical_facts(g0, *g, old(st).memo@, p, l),
        interned_kind(g0.ops@[p as int]) ==> op_key(g.ops@[l.ptr as int]) is Some,
        op_key(g.ops@[l.ptr as int]) matches Some(k) ==> old(st).interner.lookup(k) == Some(l),
    ensures
        canonicalized(g0, gin, *g, final(st).interner, min, final(st).memo@, p, l),
{
    let ghost m1 = st.memo@;
    proof {
        lemma_unmemoized(g0, *g, st.interner, m1, p);
    }
    broadcast use vstd::std_specs::hash::group_hash_axioms;
    st.memo.insert(p, l);
    proof {
        lemma_finish(g0, gin, *g, *g, st.interner, min, m1, p, l);
        lemma_memo_interned(g0, *g, st.interner, st.memo@, p);
    }
}

/// Rewrite the op `p` in place to `new_op` and memoize it as its own canonical form.
fn finish_in_place(
    st: &mut CseState,
    g: &mut Graph,
    p: usize,
    new_op: Op,
    Ghost(g0): Ghost<Graph>,
    Ghost(gin): Ghost<Graph>,
    Ghost(min): Ghost<Map<usize, Link<Op>>>,
) -> (r: Link<Op>)
    requires
        gin.wf(),
        cse_inv(g0, *old(g), old(st).interner, old(st).memo@),
        cse_grew(g0, gin, *old(g), min, old(st).memo@, g0.rank@[p as int]),
        p < g0.ops.len(),
        !min.contains_key(p),
        !old(st).memo@.contains_key(p),
        op_key(g0.ops@[p as int]) is None,
        !interned_kind(g0.ops@[p as int]),
        op_key(new_op) is None,
        op_node(new_op) == op_node(g0.ops@[p as int]),
        op_owner(new_op) == op_owner(g0.ops@[p as int]),
        same_shape(g0.ops@[p as int], new_op),
        op_children(new_op).len() == op_children(g0.ops@[p as int]).len(),
        forall|j: int|
            0 <= j < op_children(g0.ops@[p as int]).len() ==> old(st).memo@.contains_key(
                (#[trigger] op_children(g0.ops@[p as int])[j]).ptr,
            ) && op_children(new_op)[j].ptr == old(st).memo@[op_children(g0.ops@[p as int])[j].ptr].ptr,
    ensures
        r.ptr == p,
        canonicalized(g0, gin, *final(g), final(st).interner, min, final(st).memo@, p, r),
{
    let ghost g1 = *g;
    let ghost m1 = st.memo@;
    proof {
        lemma_unmemoized(g0, *g, st.interner, st.memo@, p);
        lemma_inv_interner(g0, *g, st.interner, st.memo@);
        assert forall|j: int|
            0 <= j < op_children(new_op).len() implies (#[trigger] op_children(new_op)[j]).ptr < g.ops.len()
                && g.rank@[op_children(new_op)[j].ptr as int] < g.rank@[p as int] by {
            let c = op_children(g0.ops@[p as int])[j];
            lemma_memo_get(g0, g1, st.interner, m1, c.ptr);
        }
    }
    put_op(g, p, new_op);
    let r = Link::new(p);
    broadcast use vstd::std_specs::hash::group_hash_axioms;
    st.memo.insert(p, r);
    proof {
        lemma_interner_frame(st.interner, g1, *g);
        lemma_finish(g0, gin, g1, *g, st.interner, min, m1, p, r);
    }
    r
}

fn canon_add(g: &mut Graph, st: &mut CseState, p: usize, Ghost(g0): Ghost<Graph>) -> (r: Link<Op>)
    requires
        cse_inv(g0, *old(g), old(st).interner, old(st).memo@),
        p < g0.ops.len(),
        !old(st).memo@.contains_key(p),
        g0.ops@[p as int] is Add,
    ensures
        canonicalized(g0, *old(g), *final(g), final(st).interner, old(st).memo@, final(st).memo@, p, r),
    decreases g0.rank@[p as int], 2int,
{
    let ghost gin = *g;
    let ghost min = st.memo@;
    proof {
        lemma_unmemoized(g0, *g, st.interner, st.memo@, p);
    }
    let (lhs, rhs, span) = match &g.ops[p] {
        Op::Add(x) => (x.lhs, x.rhs, x.span),
        _ => {
            proof {
                assert(false);
            }
            return Link::new(p);
        },
    };
    proof {
        assert(op_children(g0.ops@[p as int])[0] == lhs);
        assert(op_children(g0.ops@[p as int])[1] == rhs);
    }
    let l1 = canonicalize_op(g, lhs, st, Ghost(g0));
    let ghost g1 = *g;
    let ghost m1 = st.memo@;
    let l2 = canonicalize_op(g, rhs, st, Ghost(g0));
    let ghost g2 = *g;
    let ghost m2 = st.memo@;
    let ghost s2 = st.interner;
    proof {
        lemma_inv_interner(g0, *g, st.interner, st.memo@);
        lemma_grew_keeps(g0, g1, g2, m1, m2, (g0.rank@[rhs.ptr as int] + 1) as nat, lhs.ptr);
        lemma_memo_get(g0, g2, s2, m2, lhs.ptr);
        lemma_memo_get(g0, g2, s2, m2, rhs.ptr);
    }
    let l = st.interner.intern_add(g, l1, l2, span);
    proof {
        lemma_cse_grew_trans(g0, gin, g1, g2, min, m1, m2, (g0.rank@[lhs.ptr as int] + 1) as nat, (g0.rank@[rhs.ptr as int] + 1) as nat, g0.rank@[p as int]);
        lemma_cse_extends(g0, g2, *g, st.interner, m2, s2);
        lemma_cse_grew_trans(g0, gin, g2, *g, min, m2, m2, g0.rank@[p as int], 0, g0.rank@[p as int]);
        lemma_memo_get(g0, *g, st.interner, m2, lhs.ptr);
        lemma_memo_get(g0, *g, st.interner, m2, rhs.ptr);
        lemma_rank_above_le(g.rank@, op_children(g.ops@[l.ptr as int]), g0.rank@[p as int]);
    }
    proof {
        lemma_grew_excludes(g0, gin, *g, min, st.memo@, g0.rank@[p as int], p);
    }
    finish_interned(st, g, p, l, Ghost(g0), Ghost(gin), Ghost(min));
    l
}

fn canon_sub(g: &mut Graph, st: &mut CseState, p: usize, Ghost(g0): Ghost<Graph>) -> (r: Link<Op>)
    requires
        cse_inv(g0, *old(g), old(st).interner, old(st).memo@),
        p < g0.ops.len(),
        !old(st).memo@.contains_key(p),
        g0.ops@[p as int] is Sub,
    ensures
        canonicalized(g0, *old(g), *final(g), final(st).interner, old(st).memo@, final(st).memo@, p, r),
    decreases g0.rank@[p as int], 2int,
{
    let ghost gin = *g;
    let ghost min = st.memo@;
    proof {
        lemma_unmemoized(g0, *g, st.interner, st.memo@, p);
    }
    let (lhs, rhs, span) = match &g.ops[p] {
        Op::Sub(x) => (x.lhs, x.rhs, x.span),
        _ => {
            proof {
                assert(false);
            }
            return Link::new(p);
        },
    };
    proof {
        assert(op_children(g0.ops@[p as int])[0] == lhs);
        assert(op_children(g0.ops@[p as int])[1] == rhs);
    }
    let l1 = canonicalize_op(g, lhs, st, Ghost(g0));
    let ghost g1 = *g;
    let ghost m1 = st.memo@;
    let l2 = canonicalize_op(g, rhs, st, Ghost(g0));
    let ghost g2 = *g;
    let ghost m2 = st.memo@;
    let ghost s2 = st.interner;
    proof {
        lemma_inv_interner(g0, *g, st.interner, st.memo@);
        lemma_grew_keeps(g0, g1, g2, m1, m2, (g0.rank@[rhs.ptr as int] + 1) as nat, lhs.ptr);
        lemma_memo_get(g0, g2, s2, m2, lhs.ptr);
        lemma_memo_get(g0, g2, s2, m2, rhs.ptr);
    }
    let l = st.interner.intern_sub(g, l1, l2, span);
    proof {
        lemma_cse_grew_trans(g0, gin, g1, g2, min, m1, m2, (g0.rank@[lhs.ptr as int] + 1) as nat, (g0.rank@[rhs.ptr as int] + 1) as nat, g0.rank@[p as int]);
        lemma_cse_extends(g0, g2, *g, st.interner, m2, s2);
        lemma_cse_grew_trans(g0, gin, g2, *g, min, m2, m2, g0.rank@[p as int], 0, g0.rank@[p as int]);
        lemma_memo_get(g0, *g, st.interner, m2, lhs.ptr);
        lemma_memo_get(g0, *g, st.interner, m2, rhs.ptr);
        lemma_rank_above_le(g.rank@, op_children(g.ops@[l.ptr as int]), g0.rank@[p as int]);
    }
    proof {
        lemma_grew_excludes(g0, gin, *g, min, st.memo@, g0.rank@[p as int], p);
    }
    finish_interned(st, g, p, l, Ghost(g0), Ghost(gin), Ghost(min));
    l
}

fn canon_mul(g: &mut Graph, st: &mut CseState, p: usize, Ghost(g0): Ghost<Graph>) -> (r: Link<Op>)
    requires
        cse_inv(g0, *old(g), old(st).interner, old(st).memo@),
        p < g0.ops.len(),
        !old(st).memo@.contains_key(p),
        g0.ops@[p as int] is Mul,
    ensures
        canonicalized(g0, *old(g), *final(g), final(st).interner, old(st).memo@, final(st).memo@, p, r),
    decreases g0.rank@[p as int], 2int,
{
    let ghost gin = *g;
    let ghost min = st.memo@;
    proof {
        lemma_unmemoized(g0, *g, st.interner, st.memo@, p);
    }
    let (lhs, rhs, span) = match &g.ops[p] {
        Op::Mul(x) => (x.lhs, x.rhs, x.span),
        _ => {
            proof {
                assert(false);
            }
            return Link::new(p);
        },
    };
    proof {
        assert(op_children(g0.ops@[p as int])[0] == lhs);
        assert(op_children(g0.ops@[p as int])[1] == rhs);
    }
    let l1 = canonicalize_op(g, lhs, st, Ghost(g0));
    let ghost g1 = *g;
    let ghost m1 = st.memo@;
    let l2 = canonicalize_op(g, rhs, st, Ghost(g0));
    let ghost g2 = *g;
    let ghost m2 = st.memo@;
    let ghost s2 = st.interner;
    proof {
        lemma_inv_interner(g0, *g, st.interner, st.memo@);
        lemma_grew_keeps(g0, g1, g2, m1, m2, (g0.rank@[rhs.ptr as int] + 1) as nat, lhs.ptr);
        lemma_memo_get(g0, g2, s2, m2, lhs.ptr);
        lemma_memo_get(g0, g2, s2, m2, rhs.ptr);
    }
    let l = st.interner.intern_mul(g, l1, l2, span);
    proof {
        lemma_cse_grew_trans(g0, gin, g1, g2, min, m1, m2, (g0.rank@[lhs.ptr as int] + 1) as nat, (g0.rank@[rhs.ptr as int] + 1) as nat, g0.rank@[p as int]);
        lemma_cse_extends(g0, g2, *g, st.interner, m2, s2);
        lemma_cse_grew_trans(g0, gin, g2, *g, min, m2, m2, g0.rank@[p as int], 0, g0.rank@[p as int]);
        lemma_memo_get(g0, *g, st.interner, m2, lhs.ptr);
        lemma_memo_get(g0, *g, st.interner, m2, rhs.ptr);
        lemma_rank_above_le(g.rank@, op_children(g.ops@[l.ptr as int]), g0.rank@[p as int]);
    }
    proof {
        lemma_grew_excludes(g0, gin, *g, min, st.memo@, g0.rank@[p as int], p);
    }
    finish_interned(st, g, p, l, Ghost(g0), Ghost(gin), Ghost(min));
    l
}

fn canon_exp(g: &mut Graph, st: &mut CseState, p: usize, Ghost(g0): Ghost<Graph>) -> (r: Link<Op>)
    requires
        cse_inv(g0, *old(g), old(st).interner, old(st).memo@),
        p < g0.ops.len(),
        !old(st).memo@.contains_key(p),
        g0.ops@[p as int] is Exp,
    ensures
        canonicalized(g0, *old(g), *final(g), final(st).interner, old(st).memo@, final(st).memo@, p, r),
    decreases g0.rank@[p as int], 2int,
{
    let ghost gin = *g;
    let ghost min = st.memo@;
    proof {
        lemma_unmemoized(g0, *g, st.interner, st.memo@, p);
    }
    let (lhs, rhs, span) = match &g.ops[p] {
        Op::Exp(x) => (x.lhs, x.rhs, x.span),
        _ => {
            proof {
                assert(false);
            }
            return Link::new(p);
        },
    };
    proof {
        assert(op_children(g0.ops@[p as int])[0] == lhs);
        assert(op_children(g0.ops@[p as int])[1] == rhs);
    }
    let l1 = canonicalize_op(g, lhs, st, Ghost(g0));
    let ghost g1 = *g;
    let ghost m1 = st.memo@;
    let l2 = canonicalize_op(g, rhs, st, Ghost(g0));
    let ghost g2 = *g;
    let ghost m2 = st.memo@;
    let ghost s2 = st.interner;
    proof {
        lemma_inv_interner(g0, *g, st.interner, st.memo@);
        lemma_grew_keeps(g0, g1, g2, m1, m2, (g0.rank@[rhs.ptr as int] + 1) as nat, lhs.ptr);
        lemma_memo_get(g0, g2, s2, m2, lhs.ptr);
        lemma_memo_get(g0, g2, s2, m2, rhs.ptr);
    }
    let l = st.interner.intern_exp(g, l1, l2, span);
    proof {
        lemma_cse_grew_trans(g0, gin, g1, g2, min, m1, m2, (g0.rank@[lhs.ptr as int] + 1) as nat, (g0.rank@[rhs.ptr as int] + 1) as nat, g0.rank@[p as int]);
        lemma_cse_extends(g0, g2, *g, st.interner, m2, s2);
        lemma_cse_grew_trans(g0, gin, g2, *g, min, m2, m2, g0.rank@[p as int], 0, g0.rank@[p as int]);
        lemma_memo_get(g0, *g, st.interner, m2, lhs.ptr);
        lemma_memo_get(g0, *g, st.interner, m2, rhs.ptr);
        lemma_rank_above_le(g.rank@, op_children(g.ops@[l.ptr as int]), g0.rank@[p as int]);
    }
    proof {
        lemma_grew_excludes(g0, gin, *g, min, st.memo@, g0.rank@[p as int], p);
    }
    finish_interned(st, g, p, l, Ghost(g0), Ghost(gin), Ghost(min));
    l
}


fn canon_vector(g: &mut Graph, st: &mut CseState, p: usize, Ghost(g0): Ghost<Graph>) -> (r: Link<Op>)
    requires
        cse_inv(g0, *old(g), old(st).interner, old(st).memo@),
        p < g0.ops.len(),
        !old(st).memo@.contains_key(p),
        g0.ops@[p as int] is Vector,
    ensures
        canonicalized(g0, *old(g), *final(g), final(st).interner, old(st).memo@, final(st).memo@, p, r),
    decreases g0.rank@[p as int], 2int,
{
    let ghost gin = *g;
    let ghost min = st.memo@;
    proof {
        lemma_unmemoized(g0, *g, st.interner, st.memo@, p);
        lemma_cse_grew_refl(g0, *g, min, g0.rank@[p as int]);
    }
    let (elements, span) = match &g.ops[p] {
        Op::Vector(x) => (copy_vec(&x.elements), x.span),
        _ => {
            proof {
                assert(false);
            }
            return Link::new(p);
        },
    };
    let es = canon_list(g, &elements, st, Ghost(g0), Ghost(p as int));
    let ghost g2 = *g;
    let ghost m2 = st.memo@;
    let ghost s2 = st.interner;
    proof {
        assert forall|j: int| 0 <= j < es.len() implies (#[trigger] es@[j]).ptr < g.ops.len() by {
            lemma_memo_get(g0, g2, s2, m2, elements@[j].ptr);
        }
    }
    proof {
        lemma_inv_interner(g0, *g, st.interner, st.memo@);
    }
    let l = st.interner.intern_vector(g, es, span);
    proof {
        assert(elements@ == op_children(g0.ops@[p as int]));
        lemma_cse_extends(g0, g2, *g, st.interner, m2, s2);
        lemma_cse_grew_trans(g0, gin, g2, *g, min, m2, m2, g0.rank@[p as int], 0, g0.rank@[p as int]);
        assert(g.ops@[l.ptr as int] is Vector);
        let y = g.ops@[l.ptr as int]->Vector_0;
        assert(ptrs(y.elements@) == ptrs(es@));
        assert(ptrs(y.elements@).len() == y.elements@.len());
        assert(ptrs(es@).len() == es@.len());
        assert(y.elements@.len() == es@.len());
        assert(op_children(g.ops@[l.ptr as int]) == y.elements@);
        assert forall|j: int| 0 <= j < es.len() implies m2.contains_key((#[trigger] elements@[j]).ptr)
            && y.elements@[j].ptr == m2[elements@[j].ptr].ptr
            && g.rank@[y.elements@[j].ptr as int] < g0.rank@[p as int] by {
            assert(ptrs(y.elements@)[j] == ptrs(es@)[j]);
            lemma_memo_get(g0, *g, st.interner, m2, elements@[j].ptr);
            assert(op_children(g0.ops@[p as int])[j] == elements@[j]);
        }
        assert forall|j: int| 0 <= j < op_children(g.ops@[l.ptr as int]).len() implies g.rank@[(#[trigger] op_children(g.ops@[l.ptr as int])[j]).ptr as int] < g0.rank@[p as int] by {
            assert(op_children(g.ops@[l.ptr as int])[j] == y.elements@[j]);
            assert(ptrs(y.elements@)[j] == ptrs(es@)[j]);
            lemma_memo_get(g0, *g, st.interner, m2, elements@[j].ptr);
            assert(op_children(g0.ops@[p as int])[j] == elements@[j]);
        }
        lemma_rank_above_le(g.rank@, op_children(g.ops@[l.ptr as int]), g0.rank@[p as int]);
        assert forall|j: int| 0 <= j < op_children(g0.ops@[p as int]).len() implies m2.contains_key(
            (#[trigger] op_children(g0.ops@[p as int])[j]).ptr,
        ) && op_children(g.ops@[l.ptr as int])[j].ptr == m2[op_children(g0.ops@[p as int])[j].ptr].ptr by {
            assert(elements@[j] == elements@[j]);
        }
    }
    proof {
        lemma_grew_excludes(g0, gin, *g, min, st.memo@, g0.rank@[p as int], p);
    }
    finish_interned(st, g, p, l, Ghost(g0), Ghost(gin), Ghost(min));
    l
}

fn canon_matrix(g: &mut Graph, st: &mut CseState, p: usize, Ghost(g0): Ghost<Graph>) -> (r: Link<Op>)
    requires
        cse_inv(g0, *old(g), old(st).interner, old(st).memo@),
        p < g0.ops.len(),
        !old(st).memo@.contains_key(p),
        g0.ops@[p as int] is Matrix,
    ensures
        canonicalized(g0, *old(g), *final(g), final(st).interner, old(st).memo@, final(st).memo@, p, r),
    decreases g0.rank@[p as int], 2int,
{
    let ghost gin = *g;
    let ghost min = st.memo@;
    proof {
        lemma_unmemoized(g0, *g, st.interner, st.memo@, p);
        lemma_cse_grew_refl(g0, *g, min, g0.rank@[p as int]);
    }
    let (elements, span) = match &g.ops[p] {
        Op::Matrix(x) => (copy_vec(&x.elements), x.span),
        _ => {
            proof {
                assert(false);
            }
            return Link::new(p);
        },
    };
    let es = canon_list(g, &elements, st, Ghost(g0), Ghost(p as int));
    let ghost g2 = *g;
    let ghost m2 = st.memo@;
    let ghost s2 = st.interner;
    proof {
        assert forall|j: int| 0 <= j < es.len() implies (#[trigger] es@[j]).ptr < g.ops.len() by {
            lemma_memo_get(g0, g2, s2, m2, elements@[j].ptr);
        }
    }
    proof {
        lemma_inv_interner(g0, *g, st.interner, st.memo@);
    }
    let l = st.interner.intern_matrix(g, es, span);
    proof {
        assert(elements@ == op_children(g0.ops@[p as int]));
        lemma_cse_extends(g0, g2, *g, st.interner, m2, s2);
        lemma_cse_grew_trans(g0, gin, g2, *g, min, m2, m2, g0.rank@[p as int], 0, g0.rank@[p as int]);
        assert(g.ops@[l.ptr as int] is Matrix);
        let y = g.ops@[l.ptr as int]->Matrix_0;
        assert(ptrs(y.elements@) == ptrs(es@));
        assert(ptrs(y.elements@).len() == y.elements@.len());
        assert(ptrs(es@).len() == es@.len());
        assert(y.elements@.len() == es@.len());
        assert(op_children(g.ops@[l.ptr as int]) == y.elements@);
        assert forall|j: int| 0 <= j < es.len() implies m2.contains_key((#[trigger] elements@[j]).ptr)
            && y.elements@[j].ptr == m2[elements@[j].ptr].ptr
            && g.rank@[y.elements@[j].ptr as int] < g0.rank@[p as int] by {
            assert(ptrs(y.elements@)[j] == ptrs(es@)[j]);
            lemma_memo_get(g0, *g, st.interner, m2, elements@[j].ptr);
            assert(op_children(g0.ops@[p as int])[j] == elements@[j]);
        }
        assert forall|j: int| 0 <= j < op_children(g.ops@[l.ptr as int]).len() implies g.rank@[(#[trigger] op_children(g.ops@[l.ptr as int])[j]).ptr as int] < g0.rank@[p as int] by {
            assert(op_children(g.ops@[l.ptr as int])[j] == y.elements@[j]);
            assert(ptrs(y.elements@)[j] == ptrs(es@)[j]);
            lemma_memo_get(g0, *g, st.interner, m2, elements@[j].ptr);
            assert(op_children(g0.ops@[p as int])[j] == elements@[j]);
        }
        lemma_rank_above_le(g.rank@, op_children(g.ops@[l.ptr as int]), g0.rank@[p as int]);
        assert forall|j: int| 0 <= j < op_children(g0.ops@[p as int]).len() implies m2.contains_key(
            (#[trigger] op_children(g0.ops@[p as int])[j]).ptr,
        ) && op_children(g.ops@[l.ptr as int])[j].ptr == m2[op_children(g0.ops@[p as int])[j].ptr].ptr by {
            assert(elements@[j] == elements@[j]);
        }
    }
    proof {
        lemma_grew_excludes(g0, gin, *g, min, st.memo@, g0.rank@[p as int], p);
    }
    finish_interned(st, g, p, l, Ghost(g0), Ghost(gin), Ghost(min));
    l
}

fn canon_accessor(g: &mut Graph, st: &mut CseState, p: usize, Ghost(g0): Ghost<Graph>) -> (r: Link<Op>)
    requires
        cse_inv(g0, *old(g), old(st).interner, old(st).memo@),
        p < g0.ops.len(),
        !old(st).memo@.contains_key(p),
        g0.ops@[p as int] is Accessor,
    ensures
        canonicalized(g0, *old(g), *final(g), final(st).interner, old(st).memo@, final(st).memo@, p, r),
    decreases g0.rank@[p as int], 2int,
{
    let ghost gin = *g;
    let ghost min = st.memo@;
    proof {
        lemma_unmemoized(g0, *g, st.interner, st.memo@, p);
        lemma_cse_grew_refl(g0, *g, min, g0.rank@[p as int]);
    }
    let (indexable, access_type, offset, span) = match &g.ops[p] {
        Op::Accessor(x) => (x.indexable, x.access_type.clone(), x.offset, x.span),
        _ => {
            proof {
                assert(false);
            }
            return Link::new(p);
        },
    };
    proof {
        assert(op_children(g0.ops@[p as int])[0] == indexable);
    }
    let ix = canonicalize_op(g, indexable, st, Ghost(g0));
    let ghost g1 = *g;
    let ghost m1 = st.memo@;
    let at = match access_type {
        MirAccessType::Default => {
            proof {
                lemma_cse_grew_refl(g0, g1, m1, g0.rank@[p as int]);
            }
            MirAccessType::Default
        },
        MirAccessType::Index(index) => {
            proof {
                assert(op_children(g0.ops@[p as int])[1] == index);
            }
            let i1 = canonicalize_op(g, index, st, Ghost(g0));
            proof {
                lemma_grew_weaken(g0, g1, *g, m1, st.memo@, (g0.rank@[index.ptr as int] + 1) as nat, g0.rank@[p as int]);
                lemma_memo_get(g0, *g, st.interner, st.memo@, index.ptr);
            }
            MirAccessType::Index(i1)
        },
        MirAccessType::Matrix(row, col) => {
            proof {
                assert(op_children(g0.ops@[p as int])[1] == row);
                assert(op_children(g0.ops@[p as int])[2] == col);
            }
            let r1 = canonicalize_op(g, row, st, Ghost(g0));
            let ghost g3 = *g;
            let ghost m3 = st.memo@;
            let c1 = canonicalize_op(g, col, st, Ghost(g0));
            proof {
                lemma_cse_grew_trans(g0, g1, g3, *g, m1, m3, st.memo@, (g0.rank@[row.ptr as int] + 1) as nat, (g0.rank@[col.ptr as int] + 1) as nat, g0.rank@[p as int]);
                lemma_grew_keeps(g0, g3, *g, m3, st.memo@, (g0.rank@[col.ptr as int] + 1) as nat, row.ptr);
                lemma_memo_get(g0, *g, st.interner, st.memo@, row.ptr);
                lemma_memo_get(g0, *g, st.interner, st.memo@, col.ptr);
            }
            MirAccessType::Matrix(r1, c1)
        },
    };
    let ghost g2 = *g;
    let ghost m2 = st.memo@;
    let ghost s2 = st.interner;
    proof {
        lemma_cse_grew_trans(g0, gin, g1, g2, min, m1, m2, (g0.rank@[indexable.ptr as int] + 1) as nat, g0.rank@[p as int], g0.rank@[p as int]);
        lemma_grew_keeps(g0, g1, g2, m1, m2, g0.rank@[p as int], indexable.ptr);
        lemma_memo_get(g0, g2, s2, m2, indexable.ptr);
        assert forall|j: int| 0 <= j < access_children(at).len() implies (#[trigger] access_children(at)[j]).ptr < g2.ops.len()
            && m2.contains_key(access_children(access_type)[j].ptr)
            && access_children(at)[j] == m2[access_children(access_type)[j].ptr] by {
            lemma_memo_get(g0, g2, s2, m2, access_children(access_type)[j].ptr);
        }
        lemma_inv_interner(g0, *g, st.interner, st.memo@);
    }
    let l = st.interner.intern_accessor(g, ix, at, offset, span);
    proof {
        lemma_cse_extends(g0, g2, *g, st.interner, m2, s2);
        lemma_cse_grew_trans(g0, gin, g2, *g, min, m2, m2, g0.rank@[p as int], 0, g0.rank@[p as int]);
        let a = g0.ops@[p as int];
        assert(g.ops@[l.ptr as int] is Accessor);
        let y = g.ops@[l.ptr as int]->Accessor_0;
        assert(y.indexable.ptr == ix.ptr);
        assert(access_key(y.access_type) == access_key(at));
        assert(op_children(g.ops@[l.ptr as int]).len() == op_children(a).len());
        assert forall|j: int| 0 <= j < op_children(a).len() implies m2.contains_key(
            (#[trigger] op_children(a)[j]).ptr,
        ) && op_children(g.ops@[l.ptr as int])[j].ptr == m2[op_children(a)[j].ptr].ptr
            && g.rank@[op_children(g.ops@[l.ptr as int])[j].ptr as int] < g0.rank@[p as int] by {
            if j > 0 {
                assert(op_children(a)[j] == access_children(access_type)[j - 1]);
                assert(op_children(g.ops@[l.ptr as int])[j] == access_children(y.access_type)[j - 1]);
            }
            lemma_memo_get(g0, *g, st.interner, m2, op_children(a)[j].ptr);
        }
        assert forall|j: int| 0 <= j < op_children(g.ops@[l.ptr as int]).len() implies g.rank@[(#[trigger] op_children(g.ops@[l.ptr as int])[j]).ptr as int] < g0.rank@[p as int] by {
            assert(op_children(a)[j] == op_children(a)[j]);
        }
        lemma_rank_above_le(g.rank@, op_children(g.ops@[l.ptr as int]), g0.rank@[p as int]);
    }
    proof {
        lemma_grew_excludes(g0, gin, *g, min, st.memo@, g0.rank@[p as int], p);
    }
    finish_interned(st, g, p, l, Ghost(g0), Ghost(gin), Ghost(min));
    l
}

fn canon_value(g: &mut Graph, st: &mut CseState, p: usize, Ghost(g0): Ghost<Graph>) -> (r: Link<Op>)
    requires
        cse_inv(g0, *old(g), old(st).interner, old(st).memo@),
        p < g0.ops.len(),
        !old(st).memo@.contains_key(p),
        g0.ops@[p as int] is Value,
    ensures
        canonicalized(g0, *old(g), *final(g), final(st).interner, old(st).memo@, final(st).memo@, p, r),
    decreases g0.rank@[p as int], 2int,
{
    let ghost gin = *g;
    let ghost min = st.memo@;
    proof {
        lemma_unmemoized(g0, *g, st.interner, st.memo@, p);
        lemma_cse_grew_refl(g0, *g, min, g0.rank@[p as int]);
    }
    let value = match &g.ops[p] {
        Op::Value(x) => clone_spanned(&x.value),
        _ => {
            proof {
                assert(false);
            }
            return Link::new(p);
        },
    };
    let ghost s2 = st.interner;
    let ghost v = value;
    proof {
        lemma_inv_interner(g0, *g, st.interner, st.memo@);
    }
    let l = st.interner.intern_value(g, value);
    proof {
        lemma_cse_extends(g0, gin, *g, st.interner, min, s2);
        lemma_grew_weaken(g0, gin, *g, min, min, 0, g0.rank@[p as int]);
        let x = g0.ops@[p as int]->Value_0;
        let y = g.ops@[l.ptr as int]->Value_0;
        lemma_value_key(x.value.value, v.value);
        lemma_value_key(y.value.value, v.value);
        lemma_value_key(x.value.value, y.value.value);
        lemma_rank_above_le(g.rank@, op_children(g.ops@[l.ptr as int]), g0.rank@[p as int]);
    }
    proof {
        lemma_grew_excludes(g0, gin, *g, min, st.memo@, g0.rank@[p as int], p);
    }
    finish_interned(st, g, p, l, Ghost(g0), Ghost(gin), Ghost(min));
    l
}

fn canon_leaf(g: &mut Graph, st: &mut CseState, p: usize, Ghost(g0): Ghost<Graph>) -> (r: Link<Op>)
    requires
        cse_inv(g0, *old(g), old(st).interner, old(st).memo@),
        p < g0.ops.len(),
        !old(st).memo@.contains_key(p),
        g0.ops@[p as int] is Parameter || g0.ops@[p as int] is Nil,
    ensures
        canonicalized(g0, *old(g), *final(g), final(st).interner, old(st).memo@, final(st).memo@, p, r),
{
    let ghost gin = *g;
    let ghost min = st.memo@;
    proof {
        lemma_unmemoized(g0, *g, st.interner, st.memo@, p);
        lemma_inv_interner(g0, *g, st.interner, st.memo@);
        lemma_cse_grew_refl(g0, *g, min, g0.rank@[p as int]);
    }
    let l = Link::new(p);
    proof {
        lemma_grew_excludes(g0, gin, *g, min, st.memo@, g0.rank@[p as int], p);
    }
    finish_interned(st, g, p, l, Ghost(g0), Ghost(gin), Ghost(min));
    l
}

fn canon_enf(g: &mut Graph, st: &mut CseState, p: usize, Ghost(g0): Ghost<Graph>) -> (r: Link<Op>)
    requires
        cse_inv(g0, *old(g), old(st).interner, old(st).memo@),
        p < g0.ops.len(),
        !old(st).memo@.contains_key(p),
        g0.ops@[p as int] is Enf,
    ensures
        canonicalized(g0, *old(g), *final(g), final(st).interner, old(st).memo@, final(st).memo@, p, r),
    decreases g0.rank@[p as int], 2int,
{
    let ghost gin = *g;
    let ghost min = st.memo@;
    proof {
        lemma_unmemoized(g0, *g, st.interner, st.memo@, p);
        lemma_cse_grew_refl(g0, *g, min, g0.rank@[p as int]);
    }
    let (parents, expr, node, owner, span) = match &g.ops[p] {
        Op::Enf(x) => (copy_vec(&x.parents), x.expr, x._node, x._owner, x.span),
        _ => {
            proof {
                assert(false);
            }
            return Link::new(p);
        },
    };
    proof {
        assert(op_children(g0.ops@[p as int])[0] == expr);
    }
    let e = canonicalize_op(g, expr, st, Ghost(g0));
    proof {
        lemma_cse_grew_trans(g0, gin, gin, *g, min, min, st.memo@, g0.rank@[p as int], (g0.rank@[expr.ptr as int] + 1) as nat, g0.rank@[p as int]);
    }
    let new_op = Op::Enf(Enf { parents, expr: e, _node: node, _owner: owner, span });
    proof {
        lemma_grew_excludes(g0, gin, *g, min, st.memo@, g0.rank@[p as int], p);
    }
    finish_in_place(st, g, p, new_op, Ghost(g0), Ghost(gin), Ghost(min))
}

fn canon_boundary(g: &mut Graph, st: &mut CseState, p: usize, Ghost(g0): Ghost<Graph>) -> (r: Link<Op>)
    requires
        cse_inv(g0, *old(g), old(st).interner, old(st).memo@),
        p < g0.ops.len(),
        !old(st).memo@.contains_key(p),
        g0.ops@[p as int] is Boundary,
    ensures
        canonicalized(g0, *old(g), *final(g), final(st).interner, old(st).memo@, final(st).memo@, p, r),
    decreases g0.rank@[p as int], 2int,
{
    let ghost gin = *g;
    let ghost min = st.memo@;
    proof {
        lemma_unmemoized(g0, *g, st.interner, st.memo@, p);
        lemma_cse_grew_refl(g0, *g, min, g0.rank@[p as int]);
    }
    let (parents, kind, expr, node, owner, span) = match &g.ops[p] {
        Op::Boundary(x) => (copy_vec(&x.parents), x.kind, x.expr, x._node, x._owner, x.span),
        _ => {
            proof {
                assert(false);
            }
            return Link::new(p);
        },
    };
    proof {
        assert(op_children(g0.ops@[p as int])[0] == expr);
    }
    let e = canonicalize_op(g, expr, st, Ghost(g0));
    proof {
        lemma_cse_grew_trans(g0, gin, gin, *g, min, min, st.memo@, g0.rank@[p as int], (g0.rank@[expr.ptr as int] + 1) as nat, g0.rank@[p as int]);
    }
    let new_op = Op::Boundary(Boundary { parents, kind, expr: e, _node: node, _owner: owner, span });
    proof {
        lemma_grew_excludes(g0, gin, *g, min, st.memo@, g0.rank@[p as int], p);
    }
    finish_in_place(st, g, p, new_op, Ghost(g0), Ghost(gin), Ghost(min))
}

fn canon_fold(g: &mut Graph, st: &mut CseState, p: usize, Ghost(g0): Ghost<Graph>) -> (r: Link<Op>)
    requires
        cse_inv(g0, *old(g), old(st).interner, old(st).memo@),
        p < g0.ops.len(),
        !old(st).memo@.contains_key(p),
        g0.ops@[p as int] is Fold,
    ensures
        canonicalized(g0, *old(g), *final(g), final(st).interner, old(st).memo@, final(st).memo@, p, r),
    decreases g0.rank@[p as int], 2int,
{
    let ghost gin = *g;
    let ghost min = st.memo@;
    proof {
        lemma_unmemoized(g0, *g, st.interner, st.memo@, p);
        lemma_cse_grew_refl(g0, *g, min, g0.rank@[p as int]);
    }
    let (parents, iterator, operator, initial_value, node, owner, span) = match &g.ops[p] {
        Op::Fold(x) => (copy_vec(&x.parents), x.iterator, x.operator, x.initial_value, x._node, x._owner, x.span),
        _ => {
            proof {
                assert(false);
            }
            return Link::new(p);
        },
    };
    proof {
        assert(op_children(g0.ops@[p as int])[0] == iterator);
        assert(op_children(g0.ops@[p as int])[1] == initial_value);
    }
    let it = canonicalize_op(g, iterator, st, Ghost(g0));
    let ghost g1 = *g;
    let ghost m1 = st.memo@;
    let iv = canonicalize_op(g, initial_value, st, Ghost(g0));
    proof {
        lemma_cse_grew_trans(g0, gin, g1, *g, min, m1, st.memo@, (g0.rank@[iterator.ptr as int] + 1) as nat, (g0.rank@[initial_value.ptr as int] + 1) as nat, g0.rank@[p as int]);
        lemma_grew_keeps(g0, g1, *g, m1, st.memo@, (g0.rank@[initial_value.ptr as int] + 1) as nat, iterator.ptr);
    }
    let new_op = Op::Fold(Fold { parents, iterator: it, operator, initial_value: iv, _node: node, _owner: owner, span });
    proof {
        lemma_grew_excludes(g0, gin, *g, min, st.memo@, g0.rank@[p as int], p);
    }
    finish_in_place(st, g, p, new_op, Ghost(g0), Ghost(gin), Ghost(min))
}

fn canon_call(g: &mut Graph, st: &mut CseState, p: usize, Ghost(g0): Ghost<Graph>) -> (r: Link<Op>)
    requires
        cse_inv(g0, *old(g), old(st).interner, old(st).memo@),
        p < g0.ops.len(),
        !old(st).memo@.contains_key(p),
        g0.ops@[p as int] is Call,
    ensures
        canonicalized(g0, *old(g), *final(g), final(st).interner, old(st).memo@, final(st).memo@, p, r),
    decreases g0.rank@[p as int], 2int,
{
    let ghost gin = *g;
    let ghost min = st.memo@;
    proof {
        lemma_unmemoized(g0, *g, st.interner, st.memo@, p);
        lemma_cse_grew_refl(g0, *g, min, g0.rank@[p as int]);
    }
    let (parents, function, arguments, node, owner, span) = match &g.ops[p] {
        Op::Call(x) => (copy_vec(&x.parents), x.function, copy_vec(&x.arguments), x._node, x._owner, x.span),
        _ => {
            proof {
                assert(false);
            }
            return Link::new(p);
        },
    };
    proof {
        let a = g0.ops@[p as int];
        assert forall|j: int| 0 <= j < arguments.len() implies (#[trigger] arguments@[j]) == op_children(a)[j] by {}
    }
    let args = canon_list(g, &arguments, st, Ghost(g0), Ghost(p as int));
    let new_op = Op::Call(Call { parents, function, arguments: args, _node: node, _owner: owner, span });
    proof {
        lemma_grew_excludes(g0, gin, *g, min, st.memo@, g0.rank@[p as int], p);
    }
    finish_in_place(st, g, p, new_op, Ghost(g0), Ghost(gin), Ghost(min))
}

fn canon_bus_op(g: &mut Graph, st: &mut CseState, p: usize, Ghost(g0): Ghost<Graph>) -> (r: Link<Op>)
    requires
        cse_inv(g0, *old(g), old(st).interner, old(st).memo@),
        p < g0.ops.len(),
        !old(st).memo@.contains_key(p),
        g0.ops@[p as int] is BusOp,
    ensures
        canonicalized(g0, *old(g), *final(g), final(st).interner, old(st).memo@, final(st).memo@, p, r),
    decreases g0.rank@[p as int], 2int,
{
    let ghost gin = *g;
    let ghost min = st.memo@;
    proof {
        lemma_unmemoized(g0, *g, st.interner, st.memo@, p);
        lemma_cse_grew_refl(g0, *g, min, g0.rank@[p as int]);
    }
    let (parents, bus, kind, args, latch, node, owner, span) = match &g.ops[p] {
        Op::BusOp(x) => (copy_vec(&x.parents), x.bus, x.kind, copy_vec(&x.args), x.latch, x._node, x._owner, x.span),
        _ => {
            proof {
                assert(false);
            }
            return Link::new(p);
        },
    };
    proof {
        let a = g0.ops@[p as int];
        assert forall|j: int| 0 <= j < args.len() implies (#[trigger] args@[j]) == op_children(a)[j] by {}
        assert(op_children(a)[args.len() as int] == latch);
    }
    let new_args = canon_list(g, &args, st, Ghost(g0), Ghost(p as int));
    let ghost g1 = *g;
    let ghost m1 = st.memo@;
    let l = canonicalize_op(g, latch, st, Ghost(g0));
    proof {
        lemma_cse_grew_trans(g0, gin, g1, *g, min, m1, st.memo@, g0.rank@[p as int], (g0.rank@[latch.ptr as int] + 1) as nat, g0.rank@[p as int]);
        assert forall|j: int| 0 <= j < args.len() implies st.memo@.contains_key((#[trigger] args@[j]).ptr) && new_args@[j] == st.memo@[args@[j].ptr] by {
            lemma_grew_keeps(g0, g1, *g, m1, st.memo@, (g0.rank@[latch.ptr as int] + 1) as nat, args@[j].ptr);
        }
    }
    let new_op = Op::BusOp(BusOp { parents, bus, kind, args: new_args, latch: l, _node: node, _owner: owner, span });
    proof {
        let a = g0.ops@[p as int];
        assert forall|j: int| 0 <= j < op_children(a).len() implies st.memo@.contains_key(
            (#[trigger] op_children(a)[j]).ptr,
        ) && op_children(new_op)[j].ptr == st.memo@[op_children(a)[j].ptr].ptr by {
            if j < args.len() {
                assert(op_children(a)[j] == args@[j]);
                assert(op_children(new_op)[j] == new_args@[j]);
            }
        }
    }
    proof {
        lemma_grew_excludes(g0, gin, *g, min, st.memo@, g0.rank@[p as int], p);
    }
    finish_in_place(st, g, p, new_op, Ghost(g0), Ghost(gin), Ghost(min))
}

/// The arms with their conditions and expressions canonicalized, arm by arm.
fn canon_arms(
    g: &mut Graph,
    arms: &Vec<MatchArm>,
    st: &mut CseState,
    Ghost(g0): Ghost<Graph>,
    Ghost(p): Ghost<int>,
) -> (r: Vec<MatchArm>)
    requires
        cse_inv(g0, *old(g), old(st).interner, old(st).memo@),
        0 <= p < g0.ops.len(),
        forall|j: int| 0 <= j < arms.len() ==> (#[trigger] arms@[j]).condition.ptr < g0.ops.len()
            && arms@[j].expr.ptr < g0.ops.len()
            && g0.rank@[arms@[j].condition.ptr as int] < g0.rank@[p]
            && g0.rank@[arms@[j].expr.ptr as int] < g0.rank@[p],
    ensures
        cse_inv(g0, *final(g), final(st).interner, final(st).memo@),
        cse_grew(g0, *old(g), *final(g), old(st).memo@, final(st).memo@, g0.rank@[p]),
        r.len() == arms.len(),
        forall|j: int| 0 <= j < arms.len() ==> final(st).memo@.contains_key((#[trigger] arms@[j]).condition.ptr)
            && final(st).memo@.contains_key(arms@[j].expr.ptr)
            && r@[j].condition.ptr == final(st).memo@[arms@[j].condition.ptr].ptr
            && r@[j].expr.ptr == final(st).memo@[arms@[j].expr.ptr].ptr,
    decreases g0.rank@[p], 1int,
{
    let mut r: Vec<MatchArm> = Vec::new();
    let mut i: usize = 0;
    proof {
        lemma_cse_grew_refl(g0, *g, st.memo@, g0.rank@[p]);
    }
    while i < arms.len()
        invariant
            cse_inv(g0, *g, st.interner, st.memo@),
            cse_grew(g0, *old(g), *g, old(st).memo@, st.memo@, g0.rank@[p]),
            old(g).wf(),
            0 <= p < g0.ops.len(),
            forall|j: int| 0 <= j < arms.len() ==> (#[trigger] arms@[j]).condition.ptr < g0.ops.len()
                && arms@[j].expr.ptr < g0.ops.len()
                && g0.rank@[arms@[j].condition.ptr as int] < g0.rank@[p]
                && g0.rank@[arms@[j].expr.ptr as int] < g0.rank@[p],
            i <= arms.len(),
            r.len() == i,
            forall|j: int| 0 <= j < i ==> st.memo@.contains_key((#[trigger] arms@[j]).condition.ptr)
                && st.memo@.contains_key(arms@[j].expr.ptr)
                && r@[j].condition.ptr == st.memo@[arms@[j].condition.ptr].ptr
                && r@[j].expr.ptr == st.memo@[arms@[j].expr.ptr].ptr,
        decreases arms.len() - i,
    {
        let arm = arms[i];
        let ghost g1 = *g;
        let ghost m1 = st.memo@;
        let condition = canonicalize_op(g, arm.condition, st, Ghost(g0));
        let ghost g2 = *g;
        let ghost m2 = st.memo@;
        let expr = canonicalize_op(g, arm.expr, st, Ghost(g0));
        proof {
            lemma_cse_grew_trans(g0, g1, g2, *g, m1, m2, st.memo@, (g0.rank@[arm.condition.ptr as int] + 1) as nat, (g0.rank@[arm.expr.ptr as int] + 1) as nat, g0.rank@[p]);
            lemma_cse_grew_trans(g0, *old(g), g1, *g, old(st).memo@, m1, st.memo@, g0.rank@[p], g0.rank@[p], g0.rank@[p]);
            lemma_grew_keeps(g0, g2, *g, m2, st.memo@, (g0.rank@[arm.expr.ptr as int] + 1) as nat, arm.condition.ptr);
            lemma_cse_grew_trans(g0, g1, g2, *g, m1, m2, st.memo@, (g0.rank@[arm.condition.ptr as int] + 1) as nat, (g0.rank@[arm.expr.ptr as int] + 1) as nat, g0.rank@[p]);
            assert forall|j: int| 0 <= j < i implies st.memo@.contains_key((#[trigger] arms@[j]).condition.ptr)
                && st.memo@.contains_key(arms@[j].expr.ptr)
                && r@[j].condition.ptr == st.memo@[arms@[j].condition.ptr].ptr
                && r@[j].expr.ptr == st.memo@[arms@[j].expr.ptr].ptr by {
                lemma_grew_keeps(g0, g1, *g, m1, st.memo@, g0.rank@[p], arms@[j].condition.ptr);
                lemma_grew_keeps(g0, g1, *g, m1, st.memo@, g0.rank@[p], arms@[j].expr.ptr);
            }
        }
        r.push(MatchArm { condition, expr });
        i = i + 1;
    }
    r
}

fn canon_if(g: &mut Graph, st: &mut CseState, p: usize, Ghost(g0): Ghost<Graph>) -> (r: Link<Op>)
    requires
        cse_inv(g0, *old(g), old(st).interner, old(st).memo@),
        p < g0.ops.len(),
        !old(st).memo@.contains_key(p),
        g0.ops@[p as int] is If,
    ensures
        canonicalized(g0, *old(g), *final(g), final(st).interner, old(st).memo@, final(st).memo@, p, r),
    decreases g0.rank@[p as int], 2int,
{
    let ghost gin = *g;
    let ghost min = st.memo@;
    proof {
        lemma_unmemoized(g0, *g, st.interner, st.memo@, p);
        lemma_cse_grew_refl(g0, *g, min, g0.rank@[p as int]);
    }
    let (parents, arms, node, owner, span) = match &g.ops[p] {
        Op::If(x) => (copy_vec(&x.parents), copy_vec(&x.match_arms), x._node, x._owner, x.span),
        _ => {
            proof {
                assert(false);
            }
            return Link::new(p);
        },
    };
    proof {
        lemma_arms_children_of(arms@);
        assert forall|j: int| 0 <= j < arms.len() implies (#[trigger] arms@[j]).condition.ptr < g0.ops.len()
            && arms@[j].expr.ptr < g0.ops.len()
            && g0.rank@[arms@[j].condition.ptr as int] < g0.rank@[p as int]
            && g0.rank@[arms@[j].expr.ptr as int] < g0.rank@[p as int] by {
            assert(op_children(g0.ops@[p as int])[2 * j] == arms@[j].condition);
            assert(op_children(g0.ops@[p as int])[2 * j + 1] == arms@[j].expr);
        }
    }
    let new_arms = canon_arms(g, &arms, st, Ghost(g0), Ghost(p as int));
    proof {
        lemma_arms_children(arms@, new_arms@, st.memo@);
    }
    let new_op = Op::If(If { parents, match_arms: new_arms, _node: node, _owner: owner, span });
    proof {
        lemma_grew_excludes(g0, gin, *g, min, st.memo@, g0.rank@[p as int], p);
    }
    finish_in_place(st, g, p, new_op, Ghost(g0), Ghost(gin), Ghost(min))
}

fn canon_for(g: &mut Graph, st: &mut CseState, p: usize, Ghost(g0): Ghost<Graph>) -> (r: Link<Op>)
    requires
        cse_inv(g0, *old(g), old(st).interner, old(st).memo@),
        p < g0.ops.len(),
        !old(st).memo@.contains_key(p),
        g0.ops@[p as int] is For,
    ensures
        canonicalized(g0, *old(g), *final(g), final(st).interner, old(st).memo@, final(st).memo@, p, r),
    decreases g0.rank@[p as int], 2int,
{
    let ghost gin = *g;
    let ghost min = st.memo@;
    proof {
        lemma_unmemoized(g0, *g, st.interner, st.memo@, p);
        lemma_cse_grew_refl(g0, *g, min, g0.rank@[p as int]);
    }
    let (parents, iterators, expr, selector, owner_id, node, owner, span) = match &g.ops[p] {
        Op::For(x) => (copy_vec(&x.parents), copy_vec(&x.iterators), x.expr, x.selector, x.owner_id, x._node, x._owner, x.span),
        _ => {
            proof {
                assert(false);
            }
            return Link::new(p);
        },
    };
    let ghost a = g0.ops@[p as int];
    let ghost n = iterators.len() as int;
    proof {
        assert forall|j: int| 0 <= j < iterators.len() implies (#[trigger] iterators@[j]) == op_children(a)[j] by {}
        assert(op_children(a)[n] == expr);
        if let Some(sel) = selector {
            assert(op_children(a)[n + 1] == sel);
        }
    }
    let its = canon_list(g, &iterators, st, Ghost(g0), Ghost(p as int));
    let ghost g1 = *g;
    let ghost m1 = st.memo@;
    let e = canonicalize_op(g, expr, st, Ghost(g0));
    let ghost g2 = *g;
    let ghost m2 = st.memo@;
    proof {
        lemma_cse_grew_trans(g0, gin, g1, g2, min, m1, m2, g0.rank@[p as int], (g0.rank@[expr.ptr as int] + 1) as nat, g0.rank@[p as int]);
    }
    let sel = match selector {
        Some(s) => {
            let c = canonicalize_op(g, s, st, Ghost(g0));
            proof {
                lemma_cse_grew_trans(g0, gin, g2, *g, min, m2, st.memo@, g0.rank@[p as int], (g0.rank@[s.ptr as int] + 1) as nat, g0.rank@[p as int]);
            }
            Some(c)
        },
        None => None,
    };
    proof {
        assert forall|j: int| 0 <= j < iterators.len() implies st.memo@.contains_key((#[trigger] iterators@[j]).ptr) && its@[j] == st.memo@[iterators@[j].ptr] by {
            lemma_grew_keeps(g0, g1, g2, m1, m2, (g0.rank@[expr.ptr as int] + 1) as nat, iterators@[j].ptr);
            if let Some(sl) = selector {
                lemma_grew_keeps(g0, g2, *g, m2, st.memo@, (g0.rank@[sl.ptr as int] + 1) as nat, iterators@[j].ptr);
            }
        }
        if let Some(sl) = selector {
            lemma_grew_keeps(g0, g2, *g, m2, st.memo@, (g0.rank@[sl.ptr as int] + 1) as nat, expr.ptr);
        }
    }
    let new_op = Op::For(For { parents, iterators: its, expr: e, selector: sel, owner_id, _node: node, _owner: owner, span });
    proof {
        assert forall|j: int| 0 <= j < op_children(a).len() implies st.memo@.contains_key(
            (#[trigger] op_children(a)[j]).ptr,
        ) && op_children(new_op)[j].ptr == st.memo@[op_children(a)[j].ptr].ptr by {
            if j < n {
                assert(op_children(a)[j] == iterators@[j]);
                assert(op_children(new_op)[j] == its@[j]);
            } else if j == n {
                assert(op_children(new_op)[j] == e);
            } else {
                assert(op_children(new_op)[j] == sel.unwrap());
            }
        }
    }
    proof {
        lemma_grew_excludes(g0, gin, *g, min, st.memo@, g0.rank@[p as int], p);
    }
    finish_in_place(st, g, p, new_op, Ghost(g0), Ghost(gin), Ghost(min))
}

/// Canonicalize the op `op` of `g0`: the memoized form if there is one; otherwise the interned
/// form of a value, arithmetic op, vector, matrix or accessor over canonical operands, or the op
/// itself, rewritten in place over canonical operands (parameters and `Nil` stay as they are).
fn canonicalize_op(g: &mut Graph, op: Link<Op>, st: &mut CseState, Ghost(g0): Ghost<Graph>) -> (r: Link<Op>)
    requires
        cse_inv(g0, *old(g), old(st).interner, old(st).memo@),
        op.ptr < g0.ops.len(),
    ensures
        canonicalized(g0, *old(g), *final(g), final(st).interner, old(st).memo@, final(st).memo@, op.ptr, r),
    decreases g0.rank@[op.ptr as int], 3int,
{
    let p = op.get_ptr();
    broadcast use vstd::std_specs::hash::group_hash_axioms;
    match st.memo.get(&p) {
        Some(existing) => {
            let e = *existing;
            proof {
                lemma_cse_grew_refl(g0, *g, st.memo@, g0.rank@[p as int] + 1);
                lemma_memo_interned(g0, *g, st.interner, st.memo@, p);
            }
            return e;
        },
        None => {},
    }
    proof {
        lemma_unmemoized(g0, *g, st.interner, st.memo@, p);
    }
    match &g.ops[p] {
        Op::Add(_) => canon_add(g, st, p, Ghost(g0)),
        Op::Sub(_) => canon_sub(g, st, p, Ghost(g0)),
        Op::Mul(_) => canon_mul(g, st, p, Ghost(g0)),
        Op::Exp(_) => canon_exp(g, st, p, Ghost(g0)),
        Op::Vector(_) => canon_vector(g, st, p, Ghost(g0)),
        Op::Matrix(_) => canon_matrix(g, st, p, Ghost(g0)),
        Op::Accessor(_) => canon_accessor(g, st, p, Ghost(g0)),
        Op::Value(_) => canon_value(g, st, p, Ghost(g0)),
        Op::Parameter(_) | Op::Nil(_) => canon_leaf(g, st, p, Ghost(g0)),
        Op::Enf(_) => canon_enf(g, st, p, Ghost(g0)),
        Op::Boundary(_) => canon_boundary(g, st, p, Ghost(g0)),
        Op::If(_) => canon_if(g, st, p, Ghost(g0)),
        Op::For(_) => canon_for(g, st, p, Ghost(g0)),
        Op::Call(_) => canon_call(g, st, p, Ghost(g0)),
        Op::Fold(_) => canon_fold(g, st, p, Ghost(g0)),
        Op::BusOp(_) => canon_bus_op(g, st, p, Ghost(g0)),
    }
}

/// The memo stays well formed when only the graph's lists, buses and roots change.
proof fn lemma_memo_ok_frame(g0: Graph, g1: Graph, g2: Graph, s: OpInterner, m: Map<usize, Link<Op>>)
    requires
        memo_ok(g0, g1, s, m),
        g2.ops == g1.ops,
        g2.rank == g1.rank,
    ensures
        memo_ok(g0, g2, s, m),
{
    reveal(memo_ok);
    assert forall|k: usize| #[trigger] m.contains_key(k) implies k < g0.ops.len() && canonical_form(g0, g2, m, k) by {
        assert(canonical_form(g0, g1, m, k));
    }
}

/// `r` holds the canonical forms (under `m`) of the ops `items` names.
pub open spec fn mapped(items: Seq<Link<Op>>, r: Seq<Link<Op>>, m: Map<usize, Link<Op>>) -> bool {
    &&& r.len() == items.len()
    &&& forall|j: int| 0 <= j < items.len() ==> m.contains_key((#[trigger] items[j]).ptr) && r[j] == m[items[j].ptr]
}

/// The canonical forms of the ops of `g0` that `items` names.
fn canon_all(g: &mut Graph, items: &Vec<Link<Op>>, st: &mut CseState, Ghost(g0): Ghost<Graph>) -> (r: Vec<Link<Op>>)
    requires
        cse_inv(g0, *old(g), old(st).interner, old(st).memo@),
        forall|j: int| 0 <= j < items.len() ==> (#[trigger] items@[j]).ptr < g0.ops.len(),
    ensures
        cse_inv(g0, *final(g), final(st).interner, final(st).memo@),
        cse_grew(g0, *old(g), *final(g), old(st).memo@, final(st).memo@, max_rank(g0) + 1),
        mapped(items@, r@, final(st).memo@),
        forall|j: int| 0 <= j < r.len() ==> (#[trigger] r@[j]).ptr < final(g).ops.len(),
{
    let mut r: Vec<Link<Op>> = Vec::new();
    let mut i: usize = 0;
    let ghost bound = max_rank(g0) + 1;
    proof {
        lemma_cse_grew_refl(g0, *g, st.memo@, bound);
    }
    while i < items.len()
        invariant
            cse_inv(g0, *g, st.interner, st.memo@),
            cse_grew(g0, *old(g), *g, old(st).memo@, st.memo@, bound),
            bound == max_rank(g0) + 1,
            old(g).wf(),
            forall|j: int| 0 <= j < items.len() ==> (#[trigger] items@[j]).ptr < g0.ops.len(),
            i <= items.len(),
            r.len() == i,
            forall|j: int| 0 <= j < i ==> st.memo@.contains_key((#[trigger] items@[j]).ptr)
                && r@[j] == st.memo@[items@[j].ptr] && r@[j].ptr < g.ops.len(),
        decreases items.len() - i,
    {
        let ghost g1 = *g;
        let ghost m1 = st.memo@;
        let c = canonicalize_op(g, items[i], st, Ghost(g0));
        proof {
            lemma_max_rank(g0, items@[i as int].ptr as int);
            lemma_cse_grew_trans(g0, *old(g), g1, *g, old(st).memo@, m1, st.memo@, bound, g0.rank@[items@[i as int].ptr as int] + 1, bound);
            lemma_memo_get(g0, *g, st.interner, st.memo@, items@[i as int].ptr);
            assert forall|j: int| 0 <= j < i implies st.memo@.contains_key((#[trigger] items@[j]).ptr)
                && r@[j] == st.memo@[items@[j].ptr] && r@[j].ptr < g.ops.len() by {
                lemma_grew_keeps(g0, g1, *g, m1, st.memo@, g0.rank@[items@[i as int].ptr as int] + 1, items@[j].ptr);
            }
        }
        r.push(c);
        i = i + 1;
    }
    proof {
        assert forall|j: int| 0 <= j < r.len() implies (#[trigger] r@[j]).ptr < g.ops.len() by {
            assert(st.memo@.contains_key(items@[j].ptr));
        }
    }
    r
}

/// The highest rank of an op of the graph.
pub open spec fn max_rank(g: Graph) -> nat
    decreases g.rank@.len(),
{
    max_rank_of(g.rank@)
}

/// The highest element of a sequence of ranks (0 for none).
pub open spec fn max_rank_of(r: Seq<nat>) -> nat
    decreases r.len(),
{
    if r.len() == 0 {
        0
    } else {
        let m = max_rank_of(r.drop_last());
        if r.last() > m {
            r.last()
        } else {
            m
        }
    }
}

proof fn lemma_max_rank_of(r: Seq<nat>, i: int)
    requires
        0 <= i < r.len(),
    ensures
        r[i] <= max_rank_of(r),
    decreases r.len(),
{
    if i < r.len() - 1 {
        lemma_max_rank_of(r.drop_last(), i);
    }
}

proof fn lemma_max_rank(g: Graph, i: int)
    requires
        0 <= i < g.rank@.len(),
    ensures
        g.rank@[i] <= max_rank(g),
{
    lemma_max_rank_of(g.rank@, i);
}

/// The canonical forms of the ops `items` names that belong to `g0` (the first `n0` slots); an
/// op made by this canonicalization is already canonical and stays.
fn canon_root_ops(
    g: &mut Graph,
    items: &Vec<Link<Op>>,
    st: &mut CseState,
    n0: usize,
    Ghost(g0): Ghost<Graph>,
) -> (r: Vec<Link<Op>>)
    requires
        cse_inv(g0, *old(g), old(st).interner, old(st).memo@),
        n0 == g0.ops.len(),
        forall|j: int| 0 <= j < items.len() ==> (#[trigger] items@[j]).ptr < old(g).ops.len(),
    ensures
        cse_inv(g0, *final(g), final(st).interner, final(st).memo@),
        cse_grew(g0, *old(g), *final(g), old(st).memo@, final(st).memo@, max_rank(g0) + 1),
        r.len() == items.len(),
        forall|j: int| 0 <= j < items.len() ==> ((#[trigger] items@[j]).ptr < n0 ==> final(st).memo@.contains_key(items@[j].ptr)
            && r@[j] == final(st).memo@[items@[j].ptr]),
        forall|j: int| 0 <= j < items.len() ==> ((#[trigger] items@[j]).ptr >= n0 ==> r@[j] == items@[j]),
        forall|j: int| 0 <= j < r.len() ==> (#[trigger] r@[j]).ptr < final(g).ops.len(),
{
    let mut r: Vec<Link<Op>> = Vec::new();
    let mut i: usize = 0;
    let ghost bound = max_rank(g0) + 1;
    proof {
        lemma_cse_grew_refl(g0, *g, st.memo@, bound);
    }
    while i < items.len()
        invariant
            cse_inv(g0, *g, st.interner, st.memo@),
            cse_grew(g0, *old(g), *g, old(st).memo@, st.memo@, bound),
            bound == max_rank(g0) + 1,
            n0 == g0.ops.len(),
            old(g).wf(),
            old(g).ops.len() <= g.ops.len(),
            forall|j: int| 0 <= j < items.len() ==> (#[trigger] items@[j]).ptr < old(g).ops.len(),
            i <= items.len(),
            r.len() == i,
            forall|j: int| 0 <= j < i ==> ((#[trigger] items@[j]).ptr < n0 ==> st.memo@.contains_key(items@[j].ptr)
                && r@[j] == st.memo@[items@[j].ptr]),
            forall|j: int| 0 <= j < i ==> ((#[trigger] items@[j]).ptr >= n0 ==> r@[j] == items@[j]),
            forall|j: int| 0 <= j < i ==> (#[trigger] r@[j]).ptr < g.ops.len(),
        decreases items.len() - i,
    {
        let item = items[i];
        if item.ptr < n0 {
            let ghost g1 = *g;
            let ghost m1 = st.memo@;
            let c = canonicalize_op(g, item, st, Ghost(g0));
            proof {
                lemma_max_rank(g0, item.ptr as int);
                lemma_cse_grew_trans(g0, *old(g), g1, *g, old(st).memo@, m1, st.memo@, bound, g0.rank@[item.ptr as int] + 1, bound);
                lemma_memo_get(g0, *g, st.interner, st.memo@, item.ptr);
                assert forall|j: int| 0 <= j < i && (#[trigger] items@[j]).ptr < n0 implies st.memo@.contains_key(items@[j].ptr)
                    && r@[j] == st.memo@[items@[j].ptr] by {
                    lemma_grew_keeps(g0, g1, *g, m1, st.memo@, (g0.rank@[item.ptr as int] + 1) as nat, items@[j].ptr);
                }
            }
            r.push(c);
        } else {
            r.push(item);
        }
        i = i + 1;
    }
    r
}

/// Canonicalize every op that the graph's constraints, functions, evaluators and buses name.
fn canonicalize_graph(g: &mut Graph, st: &mut CseState, Ghost(g0): Ghost<Graph>)
    requires
        cse_inv(g0, *old(g), old(st).interner, old(st).memo@),
        *old(g) == g0,
    ensures
        cse_inv(g0, *final(g), final(st).interner, final(st).memo@),
        mapped(g0.boundary_constraints_roots@, final(g).boundary_constraints_roots@, final(st).memo@),
        mapped(g0.integrity_constraints_roots@, final(g).integrity_constraints_roots@, final(st).memo@),
        final(g).buses.len() == g0.buses.len(),
        forall|b: int| 0 <= b < g0.buses.len() ==> {
            &&& mapped(g0.buses@[b].columns@, (#[trigger] final(g).buses@[b]).columns@, final(st).memo@)
            &&& mapped(g0.buses@[b].latches@, final(g).buses@[b].latches@, final(st).memo@)
            &&& final(g).buses@[b].first == g0.buses@[b].first
            &&& final(g).buses@[b].last == g0.buses@[b].last
        },
        final(g).roots.len() == g0.roots.len(),
        roots_canonical(g0, *final(g), final(st).memo@),
        final(g).functions == g0.functions,
        final(g).evaluators == g0.evaluators,
        final(g).bus_table == g0.bus_table,
{
    let n0 = g.ops.len();
    let ghost bound = max_rank(g0) + 1;
    let boundary = copy_vec(&g.boundary_constraints_roots);
    let new_boundary = canon_all(g, &boundary, st, Ghost(g0));
    let ghost g2 = *g;
    g.boundary_constraints_roots = new_boundary;
    proof {
        lemma_memo_ok_frame(g0, g2, *g, st.interner, st.memo@);
    }
    let ghost g3 = *g;
    let ghost m3 = st.memo@;
    let integrity = copy_vec(&g.integrity_constraints_roots);
    let new_integrity = canon_all(g, &integrity, st, Ghost(g0));
    let ghost g4 = *g;
    proof {
        lemma_mapped_keeps(boundary@, g.boundary_constraints_roots@, g0, g3, g4, m3, st.memo@, bound);
    }
    g.integrity_constraints_roots = new_integrity;
    proof {
        lemma_memo_ok_frame(g0, g4, *g, st.interner, st.memo@);
    }
    let mut done: Vec<bool> = Vec::new();
    let mut z: usize = 0;
    while z < g.roots.len()
        invariant
            z <= g.roots.len(),
            done@.len() == z,
            forall|k: int| 0 <= k < z ==> !(#[trigger] done@[k]),
        decreases g.roots.len() - z,
    {
        done.push(false);
        z = z + 1;
    }
    proof {
        assert(g.roots == g0.roots);
        assert forall|k: int| 0 <= k < done@.len() implies #[trigger] root_slot(g0, *g, st.memo@, done@[k], k) by {
        }
    }
    let mut f: usize = 0;
    while f < g.functions.len()
        invariant
            cse_inv(g0, *g, st.interner, st.memo@),
            bound == max_rank(g0) + 1,
            n0 == g0.ops.len(),
            g.roots.len() == g0.roots.len(),
            g.functions == g0.functions,
            g.evaluators == g0.evaluators,
            g.bus_table == g0.bus_table,
            g.buses == g0.buses,
            mapped(g0.boundary_constraints_roots@, g.boundary_constraints_roots@, st.memo@),
            mapped(g0.integrity_constraints_roots@, g.integrity_constraints_roots@, st.memo@),
            done@.len() == g0.roots.len(),
            forall|k: int| 0 <= k < done@.len() ==> #[trigger] root_slot(g0, *g, st.memo@, done@[k], k),
            forall|k: int| 0 <= k < done@.len() && #[trigger] done@[k] ==> root_named(g0, k),
            forall|h: int| 0 <= h < f && (#[trigger] g0.functions@[h]).1.ptr < g0.roots.len() && g0.roots@[g0.functions@[h].1.ptr as int] is Function ==> done@[g0.functions@[h].1.ptr as int],
        decreases g.functions.len() - f,
    {
        let rp = g.functions[f].1.ptr;
        let parts = if done[rp] {
            None
        } else {
            match &g.roots[rp] {
                Root::Function(x) => Some((copy_vec(&x.parameters), x.return_type, copy_vec(&x.body), x._node, x._owner, x.span)),
                _ => None,
            }
        };
        if let Some((parameters, return_type, body, node, owner, span)) = parts {
            let ghost gs = *g;
            let ghost ms = st.memo@;
            proof {
                assert(root_slot(g0, gs, ms, done@[rp as int], rp as int));
                assert(g.roots@[rp as int] == g0.roots@[rp as int]);
                assert(root_ops_below(g0.roots@[rp as int], g0.ops.len() as nat));
                assert(root_children(g0.roots@[rp as int]) == body@);
                assert(forall|j: int| 0 <= j < body.len() ==> (#[trigger] body@[j]).ptr < n0);
                assert(forall|j: int| 0 <= j < parameters.len() ==> (#[trigger] parameters@[j]).ptr < n0);
            }
            let new_params = canon_root_ops(g, &parameters, st, n0, Ghost(g0));
            let ghost ga = *g;
            let ghost ma = st.memo@;
            let c = canonicalize_op(g, return_type, st, Ghost(g0));
            proof {
                lemma_max_rank(g0, return_type.ptr as int);
                lemma_grew_weaken(g0, ga, *g, ma, st.memo@, (g0.rank@[return_type.ptr as int] + 1) as nat, bound);
                lemma_memo_get(g0, *g, st.interner, st.memo@, return_type.ptr);
            }
            let new_return = c;
            let ghost gb = *g;
            let ghost mb = st.memo@;
            let new_body = canon_root_ops(g, &body, st, n0, Ghost(g0));
            proof {
                lemma_cse_grew_trans(g0, gs, ga, gb, ms, ma, mb, bound, bound, bound);
                lemma_cse_grew_trans(g0, gs, gb, *g, ms, mb, st.memo@, bound, bound, bound);
                lemma_cse_grew_trans(g0, ga, gb, *g, ma, mb, st.memo@, bound, bound, bound);
                lemma_mapped_keeps(g0.boundary_constraints_roots@, g.boundary_constraints_roots@, g0, gs, *g, ms, st.memo@, bound);
                lemma_mapped_keeps(g0.integrity_constraints_roots@, g.integrity_constraints_roots@, g0, gs, *g, ms, st.memo@, bound);
                assert(mapped(parameters@, new_params@, ma));
                lemma_mapped_keeps(parameters@, new_params@, g0, ga, *g, ma, st.memo@, bound);
                lemma_grew_keeps(g0, gb, *g, mb, st.memo@, bound, return_type.ptr);
                assert(mapped(body@, new_body@, st.memo@));
                lemma_slots_keep(g0, gs, *g, ms, st.memo@, bound, done@);
            }
            let new_root = Root::Function(Function { parameters: new_params, return_type: new_return, body: new_body, _node: node, _owner: owner, span });
            let ghost g5 = *g;
            proof {
                assert(root_children(new_root) == new_body@);
                assert(root_canonical(g0.roots@[rp as int], new_root, st.memo@));
            }
            put_root(g, rp, new_root);
            done.set(rp, true);
            proof {
                lemma_memo_ok_frame(g0, g5, *g, st.interner, st.memo@);
                assert(g0.functions@[f as int].1.ptr == rp);
                assert(root_named(g0, rp as int));
                assert forall|k: int| 0 <= k < done@.len() implies #[trigger] root_slot(g0, *g, st.memo@, done@[k], k) by {
                    if k != rp {
                        assert(root_slot(g0, g5, st.memo@, done@[k], k));
                    }
                }
            }
        } else {
            proof {
                assert(root_slot(g0, *g, st.memo@, done@[rp as int], rp as int));
            }
        }
        f = f + 1;
    }
    let mut e: usize = 0;
    while e < g.evaluators.len()
        invariant
            cse_inv(g0, *g, st.interner, st.memo@),
            bound == max_rank(g0) + 1,
            n0 == g0.ops.len(),
            g.roots.len() == g0.roots.len(),
            g.functions == g0.functions,
            g.evaluators == g0.evaluators,
            g.bus_table == g0.bus_table,
            g.buses == g0.buses,
            mapped(g0.boundary_constraints_roots@, g.boundary_constraints_roots@, st.memo@),
            mapped(g0.integrity_constraints_roots@, g.integrity_constraints_roots@, st.memo@),
            done@.len() == g0.roots.len(),
            forall|k: int| 0 <= k < done@.len() ==> #[trigger] root_slot(g0, *g, st.memo@, done@[k], k),
            forall|k: int| 0 <= k < done@.len() && #[trigger] done@[k] ==> root_named(g0, k),
            forall|h: int| 0 <= h < g0.functions.len() && (#[trigger] g0.functions@[h]).1.ptr < g0.roots.len() && g0.roots@[g0.functions@[h].1.ptr as int] is Function ==> done@[g0.functions@[h].1.ptr as int],
            forall|h: int| 0 <= h < e && (#[trigger] g0.evaluators@[h]).1.ptr < g0.roots.len() && g0.roots@[g0.evaluators@[h].1.ptr as int] is Evaluator ==> done@[g0.evaluators@[h].1.ptr as int],
        decreases g.evaluators.len() - e,
    {
        let rp = g.evaluators[e].1.ptr;
        let parts = if done[rp] {
            None
        } else {
            match &g.roots[rp] {
                Root::Evaluator(x) => Some((copy_nested(&x.parameters), copy_vec(&x.body), x._node, x._owner, x.span)),
                _ => None,
            }
        };
        if let Some((parameters, body, node, owner, span)) = parts {
            let ghost gs = *g;
            let ghost ms = st.memo@;
            let mut new_params: Vec<Vec<Link<Op>>> = Vec::new();
            let mut k: usize = 0;
            proof {
                lemma_cse_grew_refl(g0, *g, st.memo@, bound);
                reveal(memo_ok);
                assert(n0 <= g.ops.len());
                assert(root_slot(g0, gs, ms, done@[rp as int], rp as int));
                assert(g.roots@[rp as int] == g0.roots@[rp as int]);
                assert(root_ops_below(g0.roots@[rp as int], g0.ops.len() as nat));
                assert(root_children(g0.roots@[rp as int]) == body@);
                assert(forall|j: int| 0 <= j < body.len() ==> (#[trigger] body@[j]).ptr < n0);
                assert forall|a: int, j: int| 0 <= a < parameters.len() && 0 <= j < parameters@[a].len() implies (#[trigger] parameters@[a]@[j]).ptr < n0 by {
                    assert(parameters@[a]@[j] == g0.roots@[rp as int]->Evaluator_0.parameters@[a]@[j]);
                }
            }
            while k < parameters.len()
                invariant
                    cse_inv(g0, *g, st.interner, st.memo@),
                    cse_grew(g0, gs, *g, ms, st.memo@, bound),
                    bound == max_rank(g0) + 1,
                    n0 == g0.ops.len(),
                    gs.wf(),
                    n0 <= g.ops.len(),
                    forall|a: int, j: int| 0 <= a < parameters.len() && 0 <= j < parameters@[a].len() ==> (#[trigger] parameters@[a]@[j]).ptr < n0,
                    k <= parameters.len(),
                    new_params.len() == k,
                    forall|a: int| 0 <= a < k ==> mapped(parameters@[a]@, (#[trigger] new_params@[a])@, st.memo@),
                    forall|a: int, j: int| 0 <= a < k && 0 <= j < new_params@[a].len() ==> (#[trigger] new_params@[a]@[j]).ptr < g.ops.len(),
                decreases parameters.len() - k,
            {
                let ghost gk = *g;
                let ghost mk = st.memo@;
                proof {
                    reveal(grew_core);
                    assert(forall|j: int| 0 <= j < parameters@[k as int].len() ==> (#[trigger] parameters@[k as int]@[j]).ptr < n0);
                }
                let group = canon_root_ops(g, &parameters[k], st, n0, Ghost(g0));
                proof {
                    lemma_cse_grew_trans(g0, gs, gk, *g, ms, mk, st.memo@, bound, bound, bound);
                    assert(mapped(parameters@[k as int]@, group@, st.memo@));
                    assert forall|a: int| 0 <= a < k implies mapped(parameters@[a]@, (#[trigger] new_params@[a])@, st.memo@) by {
                        lemma_mapped_keeps(parameters@[a]@, new_params@[a]@, g0, gk, *g, mk, st.memo@, bound);
                    }
                    reveal(grew_core);
                }
                new_params.push(group);
                k = k + 1;
            }
            let ghost gb = *g;
            let ghost mb = st.memo@;
            proof {
                reveal(grew_core);
            }
            let new_body = canon_root_ops(g, &body, st, n0, Ghost(g0));
            proof {
                lemma_cse_grew_trans(g0, gs, gb, *g, ms, mb, st.memo@, bound, bound, bound);
                lemma_mapped_keeps(g0.boundary_constraints_roots@, g.boundary_constraints_roots@, g0, gs, *g, ms, st.memo@, bound);
                lemma_mapped_keeps(g0.integrity_constraints_roots@, g.integrity_constraints_roots@, g0, gs, *g, ms, st.memo@, bound);
                assert forall|a: int| 0 <= a < k implies mapped(parameters@[a]@, (#[trigger] new_params@[a])@, st.memo@) by {
                    lemma_mapped_keeps(parameters@[a]@, new_params@[a]@, g0, gb, *g, mb, st.memo@, bound);
                }
                assert(mapped(body@, new_body@, st.memo@));
                lemma_slots_keep(g0, gs, *g, ms, st.memo@, bound, done@);
            }
            let new_root = Root::Evaluator(Evaluator { parameters: new_params, body: new_body, _node: node, _owner: owner, span });
            let ghost g5 = *g;
            proof {
                assert(root_children(new_root) == new_body@);
                assert(root_canonical(g0.roots@[rp as int], new_root, st.memo@));
            }
            put_root(g, rp, new_root);
            done.set(rp, true);
            proof {
                lemma_memo_ok_frame(g0, g5, *g, st.interner, st.memo@);
                assert(g0.evaluators@[e as int].1.ptr == rp);
                assert(root_named(g0, rp as int));
                assert forall|k: int| 0 <= k < done@.len() implies #[trigger] root_slot(g0, *g, st.memo@, done@[k], k) by {
                    if k != rp {
                        assert(root_slot(g0, g5, st.memo@, done@[k], k));
                    }
                }
            }
        } else {
            proof {
                assert(root_slot(g0, *g, st.memo@, done@[rp as int], rp as int));
            }
        }
        e = e + 1;
    }
    proof {
        assert forall|k: int| 0 <= k < done@.len() implies #[trigger] done@[k] == root_named(g0, k) by {
            if root_named(g0, k) {
                if g0.roots@[k] is Function {
                    let h = choose|h: int| 0 <= h < g0.functions.len() && (#[trigger] g0.functions@[h]).1.ptr == k;
                    assert(done@[g0.functions@[h].1.ptr as int]);
                } else {
                    let h = choose|h: int| 0 <= h < g0.evaluators.len() && (#[trigger] g0.evaluators@[h]).1.ptr == k;
                    assert(done@[g0.evaluators@[h].1.ptr as int]);
                }
            }
        }
    }
    let mut b: usize = 0;
    while b < g.buses.len()
        invariant
            cse_inv(g0, *g, st.interner, st.memo@),
            bound == max_rank(g0) + 1,
            g.roots.len() == g0.roots.len(),
            g.functions == g0.functions,
            g.evaluators == g0.evaluators,
            g.bus_table == g0.bus_table,
            g.buses.len() == g0.buses.len(),
            mapped(g0.boundary_constraints_roots@, g.boundary_constraints_roots@, st.memo@),
            mapped(g0.integrity_constraints_roots@, g.integrity_constraints_roots@, st.memo@),
            b <= g.buses.len(),
            done@.len() == g0.roots.len(),
            forall|k: int| 0 <= k < done@.len() ==> #[trigger] root_slot(g0, *g, st.memo@, done@[k], k),
            forall|k: int| 0 <= k < done@.len() ==> #[trigger] done@[k] == root_named(g0, k),
            forall|c: int| b <= c < g.buses.len() ==> (#[trigger] g.buses@[c]) == g0.buses@[c],
            forall|c: int| 0 <= c < b ==> {
                &&& mapped(g0.buses@[c].columns@, (#[trigger] g.buses@[c]).columns@, st.memo@)
                &&& mapped(g0.buses@[c].latches@, g.buses@[c].latches@, st.memo@)
                &&& g.buses@[c].first == g0.buses@[c].first
                &&& g.buses@[c].last == g0.buses@[c].last
            },
        decreases g.buses.len() - b,
    {
        let columns = copy_vec(&g.buses[b].columns);
        let latches = copy_vec(&g.buses[b].latches);
        let ghost gs = *g;
        let ghost ms = st.memo@;
        proof {
            assert(g0.buses@[b as int] == g.buses@[b as int]);
            assert(forall|j: int| 0 <= j < columns.len() ==> (#[trigger] columns@[j]).ptr < g0.ops.len());
            assert(forall|j: int| 0 <= j < latches.len() ==> (#[trigger] latches@[j]).ptr < g0.ops.len());
        }
        let new_columns = canon_all(g, &columns, st, Ghost(g0));
        let ghost ga = *g;
        let ghost ma = st.memo@;
        let new_latches = canon_all(g, &latches, st, Ghost(g0));
        proof {
            lemma_mapped_keeps(columns@, new_columns@, g0, ga, *g, ma, st.memo@, bound);
            lemma_cse_grew_trans(g0, gs, ga, *g, ms, ma, st.memo@, bound, bound, bound);
            lemma_slots_keep(g0, gs, *g, ms, st.memo@, bound, done@);
            lemma_mapped_keeps(g0.boundary_constraints_roots@, g.boundary_constraints_roots@, g0, gs, *g, ms, st.memo@, bound);
            lemma_mapped_keeps(g0.integrity_constraints_roots@, g.integrity_constraints_roots@, g0, gs, *g, ms, st.memo@, bound);
            assert forall|c: int| 0 <= c < b implies {
                &&& mapped(g0.buses@[c].columns@, (#[trigger] g.buses@[c]).columns@, st.memo@)
                &&& mapped(g0.buses@[c].latches@, g.buses@[c].latches@, st.memo@)
            } by {
                lemma_mapped_keeps(g0.buses@[c].columns@, g.buses@[c].columns@, g0, gs, *g, ms, st.memo@, bound);
                lemma_mapped_keeps(g0.buses@[c].latches@, g.buses@[c].latches@, g0, gs, *g, ms, st.memo@, bound);
            }
        }
        let old_bus = &g.buses[b];
        let new_bus = Bus {
            name: old_bus.name,
            bus_type: old_bus.bus_type,
            columns: new_columns,
            latches: new_latches,
            first: old_bus.first,
            last: old_bus.last,
            span: old_bus.span,
        };
        let ghost g5 = *g;
        g.buses.set(b, new_bus);
        proof {
            lemma_memo_ok_frame(g0, g5, *g, st.interner, st.memo@);
            assert forall|c: int| 0 <= c < b implies {
                &&& mapped(g0.buses@[c].columns@, (#[trigger] g.buses@[c]).columns@, st.memo@)
                &&& mapped(g0.buses@[c].latches@, g.buses@[c].latches@, st.memo@)
                &&& g.buses@[c].first == g0.buses@[c].first
                &&& g.buses@[c].last == g0.buses@[c].last
            } by {
                assert(g.buses@[c] == g5.buses@[c]);
            }
            assert forall|k: int| 0 <= k < done@.len() implies #[trigger] root_slot(g0, *g, st.memo@, done@[k], k) by {
                assert(root_slot(g0, g5, st.memo@, done@[k], k));
            }
        }
        b = b + 1;
    }
    proof {
        assert forall|k: int| 0 <= k < g0.roots.len() implies #[trigger] root_slot(g0, *g, st.memo@, root_named(g0, k), k) by {
            assert(root_slot(g0, *g, st.memo@, done@[k], k));
            assert(done@[k] == root_named(g0, k));
        }
    }
}

/// Mapped lists stay mapped as canonicalization goes on.
proof fn lemma_mapped_keeps(
    items: Seq<Link<Op>>,
    r: Seq<Link<Op>>,
    g0: Graph,
    g1: Graph,
    g2: Graph,
    m1: Map<usize, Link<Op>>,
    m2: Map<usize, Link<Op>>,
    bound: nat,
)
    requires
        cse_grew(g0, g1, g2, m1, m2, bound),
        mapped(items, r, m1),
    ensures
        mapped(items, r, m2),
{
    reveal(grew_core);
    assert forall|j: int| 0 <= j < items.len() implies m2.contains_key((#[trigger] items[j]).ptr) && r[j] == m2[items[j].ptr] by {
        assert(m1.contains_key(items[j].ptr));
    }
}

/// The function or evaluator `r` is `r0` with each of its parameters, its return value and its
/// body ops replaced by its canonical form under `m`, and its views and span kept.
pub open spec fn root_canonical(r0: Root, r: Root, m: Map<usize, Link<Op>>) -> bool {
    match (r0, r) {
        (Root::Function(x), Root::Function(y)) => {
            &&& mapped(x.parameters@, y.parameters@, m)
            &&& m.contains_key(x.return_type.ptr)
            &&& y.return_type == m[x.return_type.ptr]
            &&& mapped(x.body@, y.body@, m)
            &&& y._node == x._node
            &&& y._owner == x._owner
            &&& y.span == x.span
        },
        (Root::Evaluator(x), Root::Evaluator(y)) => {
            &&& y.parameters.len() == x.parameters.len()
            &&& forall|s: int| 0 <= s < x.parameters.len() ==> mapped(x.parameters@[s]@, (#[trigger] y.parameters@[s])@, m)
            &&& mapped(x.body@, y.body@, m)
            &&& y._node == x._node
            &&& y._owner == x._owner
            &&& y.span == x.span
        },
        _ => false,
    }
}

/// The root in slot `k` is a function that the function table names, or an evaluator that the
/// evaluator table names.
pub open spec fn root_named(g: Graph, k: int) -> bool {
    ||| (g.roots@[k] is Function && exists|f: int| 0 <= f < g.functions.len() && (#[trigger] g.functions@[f]).1.ptr == k)
    ||| (g.roots@[k] is Evaluator && exists|e: int| 0 <= e < g.evaluators.len() && (#[trigger] g.evaluators@[e]).1.ptr == k)
}

/// Slot `k` of `g` holds the canonical form of the root of `g0` there if `canon`, and that
/// root unchanged otherwise.
pub open spec fn root_slot(g0: Graph, g: Graph, m: Map<usize, Link<Op>>, canon: bool, k: int) -> bool {
    if canon {
        root_canonical(g0.roots@[k], g.roots@[k], m)
    } else {
        g.roots@[k] == g0.roots@[k]
    }
}

/// Every named function and evaluator of `g0` has its canonical form in `g`, and every other root
/// is as it was.
pub open spec fn roots_canonical(g0: Graph, g: Graph, m: Map<usize, Link<Op>>) -> bool {
    &&& g.roots.len() == g0.roots.len()
    &&& forall|k: int| 0 <= k < g0.roots.len() ==> #[trigger] root_slot(g0, g, m, root_named(g0, k), k)
}

/// A canonicalized root stays canonical as canonicalization goes on.
proof fn lemma_root_canonical_keeps(
    r0: Root,
    r: Root,
    g0: Graph,
    g1: Graph,
    g2: Graph,
    m1: Map<usize, Link<Op>>,
    m2: Map<usize, Link<Op>>,
    bound: nat,
)
    requires
        cse_grew(g0, g1, g2, m1, m2, bound),
        root_canonical(r0, r, m1),
    ensures
        root_canonical(r0, r, m2),
{
    reveal(grew_core);
    match (r0, r) {
        (Root::Function(x), Root::Function(y)) => {
            lemma_mapped_keeps(x.parameters@, y.parameters@, g0, g1, g2, m1, m2, bound);
            lemma_mapped_keeps(x.body@, y.body@, g0, g1, g2, m1, m2, bound);
        },
        (Root::Evaluator(x), Root::Evaluator(y)) => {
            assert forall|s: int| 0 <= s < x.parameters.len() implies mapped(x.parameters@[s]@, (#[trigger] y.parameters@[s])@, m2) by {
                lemma_mapped_keeps(x.parameters@[s]@, y.parameters@[s]@, g0, g1, g2, m1, m2, bound);
            }
            lemma_mapped_keeps(x.body@, y.body@, g0, g1, g2, m1, m2, bound);
        },
        _ => {},
    }
}

/// The root slots stay as they were (canonical or untouched) as canonicalization goes on.
proof fn lemma_slots_keep(
    g0: Graph,
    g1: Graph,
    g2: Graph,
    m1: Map<usize, Link<Op>>,
    m2: Map<usize, Link<Op>>,
    bound: nat,
    done: Seq<bool>,
)
    requires
        cse_grew(g0, g1, g2, m1, m2, bound),
        forall|k: int| 0 <= k < done.len() ==> #[trigger] root_slot(g0, g1, m1, done[k], k),
    ensures
        forall|k: int| 0 <= k < done.len() ==> #[trigger] root_slot(g0, g2, m2, done[k], k),
{
    assert forall|k: int| 0 <= k < done.len() implies #[trigger] root_slot(g0, g2, m2, done[k], k) by {
        assert(root_slot(g0, g1, m1, done[k], k));
        if done[k] {
            lemma_root_canonical_keeps(g0.roots@[k], g1.roots@[k], g0, g1, g2, m1, m2, bound);
        }
    }
}

/// A copy of a list of lists of handles.
fn copy_nested(v: &Vec<Vec<Link<Op>>>) -> (r: Vec<Vec<Link<Op>>>)
    ensures
        r.len() == v.len(),
        forall|a: int| 0 <= a < v.len() ==> (#[trigger] r@[a])@ == v@[a]@,
{
    let mut r: Vec<Vec<Link<Op>>> = Vec::new();
    let mut i: usize = 0;
    while i < v.len()
        invariant
            i <= v.len(),
            r.len() == i,
            forall|a: int| 0 <= a < i ==> (#[trigger] r@[a])@ == v@[a]@,
        decreases v.len() - i,
    {
        r.push(copy_vec(&v[i]));
        i = i + 1;
    }
    r
}

/// CSE merged what it could: every memoized op of an interned kind ends on an op with a key, and
/// two such ops whose canonical forms have the same key (the same kind and span or value over the
/// same canonical operands) end on one op.
pub open spec fn merged(g0: Graph, g: Graph, m: Map<usize, Link<Op>>) -> bool {
    &&& forall|k: usize|
        #[trigger] m.contains_key(k) && interned_kind(g0.ops@[k as int]) ==> op_key(g.ops@[m[k].ptr as int]) is Some
    &&& forall|i: usize, j: usize|
        m.contains_key(i) && m.contains_key(j) && interned_kind(g0.ops@[i as int]) && interned_kind(g0.ops@[j as int])
            && op_key(g.ops@[(#[trigger] m[i]).ptr as int]) == op_key(g.ops@[(#[trigger] m[j]).ptr as int]) ==> m[i] == m[j]
}

/// The memo of a canonicalization merges ops whose canonical forms share a key.
proof fn lemma_merged(g0: Graph, g: Graph, s: OpInterner, m: Map<usize, Link<Op>>)
    requires
        cse_inv(g0, g, s, m),
    ensures
        merged(g0, g, m),
{
    reveal(memo_ok);
    assert forall|i: usize, j: usize|
        m.contains_key(i) && m.contains_key(j) && interned_kind(g0.ops@[i as int]) && interned_kind(g0.ops@[j as int])
            && op_key(g.ops@[(#[trigger] m[i]).ptr as int]) == op_key(g.ops@[(#[trigger] m[j]).ptr as int]) implies m[i] == m[j] by {
        assert(s.lookup(op_key(g.ops@[m[i].ptr as int])->Some_0) == Some(m[i]));
        assert(s.lookup(op_key(g.ops@[m[j].ptr as int])->Some_0) == Some(m[j]));
    }
}

/// A memoized op has its canonical form.
proof fn lemma_canonical(g0: Graph, g: Graph, s: OpInterner, m: Map<usize, Link<Op>>, k: usize)
    requires
        cse_inv(g0, g, s, m),
        m.contains_key(k),
    ensures
        canonical_form(g0, g, m, k),
{
    reveal(memo_ok);
}

/// Two values with the same value and value span, or two additions, subtractions,
/// multiplications or exponentiations with the same span whose operands canonicalize to the same
/// ops, end on one op.
pub proof fn law_cse_merges_alike(g0: Graph, g: Graph, s: OpInterner, m: Map<usize, Link<Op>>, i: usize, j: usize)
    requires
        cse_inv(g0, g, s, m),
        m.contains_key(i),
        m.contains_key(j),
        ({
            let a = g0.ops@[i as int];
            let b = g0.ops@[j as int];
            ||| (a matches Op::Value(x) && b matches Op::Value(y) && x.value.span == y.value.span && same_value(
                x.value.value,
                y.value.value,
            ))
            ||| (a matches Op::Add(x) && b matches Op::Add(y) && x.span == y.span && m[x.lhs.ptr] == m[y.lhs.ptr]
                && m[x.rhs.ptr] == m[y.rhs.ptr])
            ||| (a matches Op::Sub(x) && b matches Op::Sub(y) && x.span == y.span && m[x.lhs.ptr] == m[y.lhs.ptr]
                && m[x.rhs.ptr] == m[y.rhs.ptr])
            ||| (a matches Op::Mul(x) && b matches Op::Mul(y) && x.span == y.span && m[x.lhs.ptr] == m[y.lhs.ptr]
                && m[x.rhs.ptr] == m[y.rhs.ptr])
            ||| (a matches Op::Exp(x) && b matches Op::Exp(y) && x.span == y.span && m[x.lhs.ptr] == m[y.lhs.ptr]
                && m[x.rhs.ptr] == m[y.rhs.ptr])
        }),
    ensures
        m[i] == m[j],
{
    lemma_merged(g0, g, s, m);
    lemma_canonical(g0, g, s, m, i);
    lemma_canonical(g0, g, s, m, j);
    let a = g0.ops@[i as int];
    let b = g0.ops@[j as int];
    let ca = g.ops@[m[i].ptr as int];
    let cb = g.ops@[m[j].ptr as int];
    assert(op_key(ca) is Some);
    assert(op_key(cb) is Some);
    match (a, b) {
        (Op::Value(x), Op::Value(y)) => {
            let (xa, xb) = (ca->Value_0, cb->Value_0);
            lemma_value_key(xa.value.value, xb.value.value);
            lemma_value_key(x.value.value, xa.value.value);
            lemma_value_key(y.value.value, xb.value.value);
            assert(op_key(ca) == op_key(cb));
        },
        _ => {
            assert(op_children(a)[0] == op_children(a)[0]);
            assert(op_children(b)[1] == op_children(b)[1]);
            assert(op_children(ca)[0].ptr == m[op_children(a)[0].ptr].ptr);
            assert(op_children(ca)[1].ptr == m[op_children(a)[1].ptr].ptr);
            assert(op_children(cb)[0].ptr == m[op_children(b)[0].ptr].ptr);
            assert(op_children(cb)[1].ptr == m[op_children(b)[1].ptr].ptr);
            assert(op_key(ca) == op_key(cb));
        },
    }
}

/// What CSE made of `g0`: `g`, in which every op a constraint, a bus column or latch, or a named
/// function's or evaluator's parameters, return value or body names is replaced by its canonical
/// form, and every op is either as it was or canonical.
pub open spec fn cse_result(g0: Graph, g: Graph) -> bool {
    exists|s: OpInterner, m: Map<usize, Link<Op>>|
        #[trigger] cse_inv(g0, g, s, m) && {
            &&& merged(g0, g, m)
            &&& mapped(g0.boundary_constraints_roots@, g.boundary_constraints_roots@, m)
            &&& mapped(g0.integrity_constraints_roots@, g.integrity_constraints_roots@, m)
            &&& roots_canonical(g0, g, m)
            &&& g.buses.len() == g0.buses.len()
            &&& forall|b: int|
                0 <= b < g0.buses.len() ==> {
                    &&& mapped(g0.buses@[b].columns@, (#[trigger] g.buses@[b]).columns@, m)
                    &&& mapped(g0.buses@[b].latches@, g.buses@[b].latches@, m)
                }
        }
}

impl Cse {
    /// Run CSE on the graph.
    pub fn run(&mut self, g: &mut Graph) -> (r: Result<(), CompileError>)
        requires
            old(g).wf(),
        ensures
            r is Ok,
            final(g).wf(),
            final(g).roots.len() == old(g).roots.len(),
            final(g).functions == old(g).functions,
            final(g).evaluators == old(g).evaluators,
            final(g).bus_table == old(g).bus_table,
            cse_result(*old(g), *final(g)),
    {
        let ghost g0 = *g;
        let mut state = CseState::new();
        proof {
            reveal(memo_ok);
            lemma_cse_start(g0, state.interner);
        }
        canonicalize_graph(g, &mut state, Ghost(g0));
        proof {
            assert(cse_inv(g0, *g, state.interner, state.memo@));
            lemma_merged(g0, *g, state.interner, state.memo@);
        }
        Ok(())
    }
}

/// Canonicalization starts well formed, with an empty interner and memo.
proof fn lemma_cse_start(g0: Graph, s: OpInterner)
    requires
        g0.wf(),
        s.entries@.len() == 0,
    ensures
        cse_inv(g0, g0, s, Map::<usize, Link<Op>>::empty()),
{
    reveal(memo_ok);
}

} // verus!