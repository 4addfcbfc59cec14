//! The parts of the inlining pass that decide: the order in which functions and evaluators are
//! inlined (each after the ones it depends on), and how the arguments of a call to an evaluator
//! unpack into one argument per trace column, checked against the callee's parameters.
use vstd::prelude::*;

use crate::builder::{lemma_popcount_le, popcount};
use crate::graph::Graph;
use crate::ir::{op_children, MirAccessType, Op, Root};
use crate::link::Link;
use crate::quad_eval::const_index_of;
use crate::utils::lemma_popcount_set;
use crate::passes::{get_inner_const, CompileError, Diagnostic, DiagnosticKind, DiagnosticsHandler};
use crate::ir::Value;
use crate::value::{MirType, MirValue, SourceSpan, SpannedMirValue, TraceAccessBinding, same_value};

verus! {

/// The dependency graph of the functions and evaluators: each with the ones it calls.
pub type DependencyGraph = Vec<(Link<Root>, Vec<Link<Root>>)>;

/// `p` is the slot of one of the roots of the graph.
pub open spec fn is_key(s: Seq<(Link<Root>, Vec<Link<Root>>)>, p: usize) -> bool {
    exists|i: int| 0 <= i < s.len() && (#[trigger] s[i]).0.ptr == p
}

/// No root occurs twice in the graph.
pub open spec fn keys_distinct(s: Seq<(Link<Root>, Vec<Link<Root>>)>) -> bool {
    forall|i: int, j: int| 0 <= i < j < s.len() ==> (#[trigger] s[i]).0.ptr != (#[trigger] s[j]).0.ptr
}

/// The `k`-th dependency of the `i`-th root.
pub open spec fn dep(s: Seq<(Link<Root>, Vec<Link<Root>>)>, i: int, k: int) -> usize {
    s[i].1@[k].ptr
}

/// `p` is the slot of one of the first `j` roots of `order`.
pub open spec fn in_prefix(order: Seq<Link<Root>>, j: int, p: usize) -> bool {
    exists|l: int| 0 <= l < j && (#[trigger] order[l]).ptr == p
}

/// The `j`-th root of `order` comes after all the roots it depends on.
pub open spec fn deps_before(s: Seq<(Link<Root>, Vec<Link<Root>>)>, order: Seq<Link<Root>>, j: int) -> bool {
    forall|i: int, k: int|
        0 <= i < s.len() && s[i].0.ptr == order[j].ptr && 0 <= k < s[i].1.len() ==> #[trigger] in_prefix(
            order,
            j,
            dep(s, i, k),
        )
}

/// `order` lists every root of the graph once, each after all the roots it depends on.
pub open spec fn is_inlining_order(s: Seq<(Link<Root>, Vec<Link<Root>>)>, order: Seq<Link<Root>>) -> bool {
    &&& order.len() == s.len()
    &&& forall|i: int| 0 <= i < s.len() ==> #[trigger] in_prefix(order, order.len() as int, s[i].0.ptr)
    &&& forall|j: int| 0 <= j < order.len() ==> is_key(s, (#[trigger] order[j]).ptr)
    &&& forall|j: int| 0 <= j < order.len() ==> #[trigger] deps_before(s, order, j)
}

/// `stuck` is a nonempty set of roots none of which can come first: each depends on a root of
/// the set, or on one that is not in the graph.
pub open spec fn is_stuck(s: Seq<(Link<Root>, Vec<Link<Root>>)>, stuck: Set<usize>) -> bool {
    &&& exists|p: usize| stuck.contains(p)
    &&& forall|p: usize| #[trigger] stuck.contains(p) ==> is_key(s, p)
    &&& forall|i: int|
        0 <= i < s.len() && stuck.contains((#[trigger] s[i]).0.ptr) ==> exists|k: int|
            0 <= k < s[i].1.len() && (stuck.contains(#[trigger] dep(s, i, k)) || !is_key(s, dep(s, i, k)))
}

/// An inlining order and a stuck set of roots exclude each other: where the roots can be ordered,
/// no set of them is stuck.
pub proof fn law_order_excludes_stuck(
    s: Seq<(Link<Root>, Vec<Link<Root>>)>,
    order: Seq<Link<Root>>,
    stuck: Set<usize>,
)
    requires
        keys_distinct(s),
        is_inlining_order(s, order),
    ensures
        !is_stuck(s, stuck),
{
    if is_stuck(s, stuck) {
        let p = choose|p: usize| stuck.contains(p);
        let i = choose|i: int| 0 <= i < s.len() && (#[trigger] s[i]).0.ptr == p;
        assert(in_prefix(order, order.len() as int, s[i].0.ptr));
        let j = choose|j: int| 0 <= j < order.len() && (#[trigger] order[j]).ptr == s[i].0.ptr;
        lemma_none_stuck_below(s, order, stuck, (j + 1) as nat);
        assert(!stuck.contains(order[j].ptr));
    }
}

/// No root of a stuck set sits among the first `n` of an inlining order.
proof fn lemma_none_stuck_below(
    s: Seq<(Link<Root>, Vec<Link<Root>>)>,
    order: Seq<Link<Root>>,
    stuck: Set<usize>,
    n: nat,
)
    requires
        keys_distinct(s),
        is_inlining_order(s, order),
        is_stuck(s, stuck),
        n <= order.len(),
    ensures
        forall|j: int| 0 <= j < n ==> !stuck.contains((#[trigger] order[j]).ptr),
    decreases n,
{
    if n > 0 {
        lemma_none_stuck_below(s, order, stuck, (n - 1) as nat);
        let j = n - 1;
        if stuck.contains(order[j].ptr) {
            assert(is_key(s, order[j].ptr));
            let i = choose|i: int| 0 <= i < s.len() && (#[trigger] s[i]).0.ptr == order[j].ptr;
            assert(stuck.contains(s[i].0.ptr));
            let k = choose|k: int|
                0 <= k < s[i].1.len() && (stuck.contains(#[trigger] dep(s, i, k)) || !is_key(s, dep(s, i, k)));
            assert(deps_before(s, order, j));
            assert(in_prefix(order, j, dep(s, i, k)));
            let l = choose|l: int| 0 <= l < j && (#[trigger] order[l]).ptr == dep(s, i, k);
            assert(is_key(s, order[l].ptr));
            assert(!stuck.contains(order[l].ptr));
        }
    }
}

/// The root `p` is marked in `done`.
pub open spec fn done_key(s: Seq<(Link<Root>, Vec<Link<Root>>)>, done: Seq<bool>, p: usize) -> bool {
    exists|j: int| 0 <= j < s.len() && (#[trigger] s[j]).0.ptr == p && done[j]
}

/// All the roots the `i`-th root depends on are marked in `done`.
pub open spec fn free(s: Seq<(Link<Root>, Vec<Link<Root>>)>, done: Seq<bool>, i: int) -> bool {
    forall|k: int| 0 <= k < s[i].1.len() ==> #[trigger] done_key(s, done, dep(s, i, k))
}

/// Have all the dependencies of the `i`-th root been ordered?
fn deps_done(graph: &DependencyGraph, done: &Vec<bool>, i: usize) -> (r: bool)
    requires
        i < graph.len(),
        done.len() == graph.len(),
    ensures
        r == free(graph@, done@, i as int),
{
    let deps = &graph[i].1;
    let mut k: usize = 0;
    while k < deps.len()
        invariant
            i < graph.len(),
            done.len() == graph.len(),
            *deps == graph@[i as int].1,
            k <= deps.len(),
            forall|t: int| 0 <= t < k ==> #[trigger] done_key(graph@, done@, dep(graph@, i as int, t)),
        decreases deps.len() - k,
    {
        let d = deps[k].ptr;
        let mut j: usize = 0;
        let mut found = false;
        while j < graph.len()
            invariant
                done.len() == graph.len(),
                j <= graph.len(),
                found == exists|t: int| 0 <= t < j && (#[trigger] graph@[t]).0.ptr == d && done@[t],
            decreases graph.len() - j,
        {
            if graph[j].0.ptr == d && done[j] {
                found = true;
            }
            j = j + 1;
        }
        proof {
            assert(dep(graph@, i as int, k as int) == d);
        }
        if !found {
            proof {
                assert(!done_key(graph@, done@, dep(graph@, i as int, k as int)));
            }
            return false;
        }
        k = k + 1;
    }
    true
}

/// Helper function to create the inlining order depending on the dependency graph: every
/// function or evaluator after the ones it depends on.
///
/// Raises an error if a circular dependency is detected: exactly where some of them are stuck
/// on each other (or on one that is not in the graph).
pub fn create_inlining_order(
    diagnostics: &mut DiagnosticsHandler,
    func_eval_dependency_graph: DependencyGraph,
) -> (r: Result<Vec<Link<Root>>, CompileError>)
    requires
        keys_distinct(func_eval_dependency_graph@),
    ensures
        r matches Ok(order) ==> is_inlining_order(func_eval_dependency_graph@, order@)
            && final(diagnostics).emitted@ == old(diagnostics).emitted@,
        r is Err ==> (exists|stuck: Set<usize>| is_stuck(func_eval_dependency_graph@, stuck))
            && final(diagnostics).emitted@ == old(diagnostics).emitted@.push(
            Diagnostic { kind: DiagnosticKind::CircularDependency, span: SourceSpan { source_id: 0, start: 0, end: 0 } },
        ),
        r is Ok <==> !exists|stuck: Set<usize>| is_stuck(func_eval_dependency_graph@, stuck),
{
    let graph = &func_eval_dependency_graph;
    let ghost s = graph@;
    let n = graph.len();
    let mut done: Vec<bool> = Vec::new();
    while done.len() < n
        invariant
            n == graph.len(),
            done.len() <= n,
            forall|i: int| 0 <= i < done.len() ==> !(#[trigger] done@[i]),
        decreases n - done.len(),
    {
        done.push(false);
    }
    proof {
        lemma_popcount_none(done@);
    }
    let mut order: Vec<Link<Root>> = Vec::new();
    while order.len() < n
        invariant
            s == graph@,
            s == func_eval_dependency_graph@,
            keys_distinct(s),
            n == graph.len(),
            done.len() == n,
            popcount(done@) == order.len(),
            order.len() <= n,
            forall|j: int| 0 <= j < order.len() ==> is_key(s, (#[trigger] order@[j]).ptr),
            forall|i: int| 0 <= i < n ==> (#[trigger] done@[i] <==> in_prefix(order@, order.len() as int, s[i].0.ptr)),
            forall|j: int| 0 <= j < order.len() ==> #[trigger] deps_before(s, order@, j),
            diagnostics.emitted@ == old(diagnostics).emitted@,
        decreases n - order.len(),
    {
        let mut found: Option<usize> = None;
        let mut i: usize = 0;
        while i < n
            invariant
                n == graph.len(),
                done.len() == n,
                i <= n,
                found matches Some(f) ==> f < n && !done@[f as int] && free(graph@, done@, f as int),
                found is None ==> forall|t: int| 0 <= t < i ==> #[trigger] done@[t] || !free(graph@, done@, t),
            decreases n - i,
        {
            if found.is_none() && !done[i] && deps_done(graph, &done, i) {
                found = Some(i);
            }
            i = i + 1;
        }
        match found {
            None => {
                diagnostics.emit(DiagnosticKind::CircularDependency, SourceSpan { source_id: 0, start: 0, end: 0 });
                proof {
                    lemma_stuck_when_none_free(s, done@, order.len() as nat);
                    if exists|o: Seq<Link<Root>>| is_inlining_order(s, o) {
                        let o = choose|o: Seq<Link<Root>>| is_inlining_order(s, o);
                        let st = choose|st: Set<usize>| is_stuck(s, st);
                        law_order_excludes_stuck(s, o, st);
                    }
                }
                return Err(CompileError::Failed);
            },
            Some(f) => {
                let ghost done0 = done@;
                let ghost order0 = order@;
                done.set(f, true);
                order.push(graph[f].0);
                proof {
                    assert(done@ == done0.update(f as int, true));
                    lemma_popcount_set(done0, f as int);
                    lemma_order_step(s, done0, order0, f as int);
                }
            },
        }
    }
    proof {
        lemma_popcount_le(done@);
        lemma_all_done(done@);
        assert forall|i: int| 0 <= i < s.len() implies #[trigger] in_prefix(order@, order.len() as int, s[i].0.ptr) by {
            assert(done@[i]);
        }
        assert(is_inlining_order(s, order@));
        if exists|st: Set<usize>| is_stuck(s, st) {
            let st = choose|st: Set<usize>| is_stuck(s, st);
            law_order_excludes_stuck(s, order@, st);
        }
    }
    Ok(order)
}

/// Ordering a free root next keeps the order valid, and its marks in step.
proof fn lemma_order_step(s: Seq<(Link<Root>, Vec<Link<Root>>)>, done0: Seq<bool>, order0: Seq<Link<Root>>, f: int)
    requires
        keys_distinct(s),
        done0.len() == s.len(),
        0 <= f < s.len(),
        !done0[f],
        free(s, done0, f),
        forall|j: int| 0 <= j < order0.len() ==> is_key(s, (#[trigger] order0[j]).ptr),
        forall|i: int| 0 <= i < s.len() ==> (#[trigger] done0[i] <==> in_prefix(order0, order0.len() as int, s[i].0.ptr)),
        forall|j: int| 0 <= j < order0.len() ==> #[trigger] deps_before(s, order0, j),
    ensures
        ({
            let order = order0.push(s[f].0);
            let done = done0.update(f, true);
            &&& forall|j: int| 0 <= j < order.len() ==> is_key(s, (#[trigger] order[j]).ptr)
            &&& forall|i: int| 0 <= i < s.len() ==> (#[trigger] done[i] <==> in_prefix(order, order.len() as int, s[i].0.ptr))
            &&& forall|j: int| 0 <= j < order.len() ==> #[trigger] deps_before(s, order, j)
        }),
{
    let order = order0.push(s[f].0);
    let done = done0.update(f, true);
    let n0 = order0.len() as int;
    assert forall|j: int| 0 <= j < order.len() implies is_key(s, (#[trigger] order[j]).ptr) by {
        if j < n0 {
            assert(order[j] == order0[j]);
        } else {
            assert(order[j].ptr == s[f].0.ptr);
        }
    }
    assert forall|i: int| 0 <= i < s.len() implies (#[trigger] done[i] <==> in_prefix(order, order.len() as int, s[i].0.ptr)) by {
        if i == f {
            assert(order[n0].ptr == s[i].0.ptr);
        } else {
            if in_prefix(order, order.len() as int, s[i].0.ptr) {
                let l = choose|l: int| 0 <= l < order.len() && (#[trigger] order[l]).ptr == s[i].0.ptr;
                if l == n0 {
                    if i < f {
                        assert(s[i].0.ptr != s[f].0.ptr);
                    } else {
                        assert(s[f].0.ptr != s[i].0.ptr);
                    }
                } else {
                    assert(order0[l].ptr == s[i].0.ptr);
                    assert(in_prefix(order0, n0, s[i].0.ptr));
                }
            }
            if done0[i] {
                let l = choose|l: int| 0 <= l < n0 && (#[trigger] order0[l]).ptr == s[i].0.ptr;
                assert(order[l] == order0[l]);
            }
        }
    }
    assert forall|j: int| 0 <= j < order.len() implies #[trigger] deps_before(s, order, j) by {
        assert forall|i: int, k: int|
            0 <= i < s.len() && s[i].0.ptr == order[j].ptr && 0 <= k < s[i].1.len() implies #[trigger] in_prefix(
            order,
            j,
            dep(s, i, k),
        ) by {
            if j < n0 {
                assert(order[j] == order0[j]);
                assert(deps_before(s, order0, j));
                assert(in_prefix(order0, j, dep(s, i, k)));
                let l = choose|l: int| 0 <= l < j && (#[trigger] order0[l]).ptr == dep(s, i, k);
                assert(order[l] == order0[l]);
            } else {
                if i != f {
                    if i < f {
                        assert(s[i].0.ptr != s[f].0.ptr);
                    } else {
                        assert(s[f].0.ptr != s[i].0.ptr);
                    }
                }
                assert(done_key(s, done0, dep(s, f, k)));
                let jj = choose|jj: int| 0 <= jj < s.len() && (#[trigger] s[jj]).0.ptr == dep(s, f, k) && done0[jj];
                assert(in_prefix(order0, n0, s[jj].0.ptr));
                let l = choose|l: int| 0 <= l < n0 && (#[trigger] order0[l]).ptr == s[jj].0.ptr;
                assert(order[l] == order0[l]);
            }
        }
    }
}

/// Where no unmarked root is free, the unmarked roots are stuck.
proof fn lemma_stuck_when_none_free(s: Seq<(Link<Root>, Vec<Link<Root>>)>, done: Seq<bool>, c: nat)
    requires
        keys_distinct(s),
        done.len() == s.len(),
        popcount(done) == c,
        c < s.len(),
        forall|t: int| 0 <= t < s.len() ==> #[trigger] done[t] || !free(s, done, t),
    ensures
        exists|stuck: Set<usize>| is_stuck(s, stuck),
{
    let stuck = Set::new(|p: usize| exists|t: int| 0 <= t < s.len() && (#[trigger] s[t]).0.ptr == p && !done[t]);
    let t0 = lemma_some_undone(done, c);
    assert(stuck.contains(s[t0].0.ptr));
    assert forall|p: usize| #[trigger] stuck.contains(p) implies is_key(s, p) by {
        let t = choose|t: int| 0 <= t < s.len() && (#[trigger] s[t]).0.ptr == p && !done[t];
    }
    assert forall|t: int| 0 <= t < s.len() && stuck.contains((#[trigger] s[t]).0.ptr) implies exists|k: int|
        0 <= k < s[t].1.len() && (stuck.contains(#[trigger] dep(s, t, k)) || !is_key(s, dep(s, t, k))) by {
        let t2 = choose|t2: int| 0 <= t2 < s.len() && (#[trigger] s[t2]).0.ptr == s[t].0.ptr && !done[t2];
        if t2 != t {
            if t2 < t {
                assert(s[t2].0.ptr != s[t].0.ptr);
            } else {
                assert(s[t].0.ptr != s[t2].0.ptr);
            }
        }
        assert(!free(s, done, t));
        let k = choose|k: int| 0 <= k < s[t].1.len() && !#[trigger] done_key(s, done, dep(s, t, k));
        if is_key(s, dep(s, t, k)) {
            let j = choose|j: int| 0 <= j < s.len() && (#[trigger] s[j]).0.ptr == dep(s, t, k);
            assert(!done[j]);
            assert(stuck.contains(dep(s, t, k)));
        }
    }
    assert(is_stuck(s, stuck));
}

/// A row of `false` entries has no `true` entry.
proof fn lemma_popcount_none(s: Seq<bool>)
    requires
        forall|i: int| 0 <= i < s.len() ==> !s[i],
    ensures
        popcount(s) == 0,
    decreases s.len(),
{
    if s.len() > 0 {
        lemma_popcount_none(s.drop_first());
    }
}

/// A row with fewer `true` entries than entries has a `false` entry.
proof fn lemma_some_undone(s: Seq<bool>, c: nat) -> (t: int)
    requires
        popcount(s) == c,
        c < s.len(),
    ensures
        0 <= t < s.len(),
        !s[t],
    decreases s.len(),
{
    if !s[0] {
        0
    } else {
        lemma_popcount_le(s.drop_first());
        let t = lemma_some_undone(s.drop_first(), (c - 1) as nat);
        t + 1
    }
}

/// A row with as many `true` entries as entries is all `true`.
proof fn lemma_all_done(s: Seq<bool>)
    requires
        popcount(s) == s.len(),
    ensures
        forall|i: int| 0 <= i < s.len() ==> #[trigger] s[i],
    decreases s.len(),
{
    if s.len() > 0 {
        lemma_popcount_le(s.drop_first());
        lemma_all_done(s.drop_first());
        assert forall|i: int| 0 <= i < s.len() implies #[trigger] s[i] by {
            if i > 0 {
                assert(s[i] == s.drop_first()[i - 1]);
            }
        }
    }
}

/// The op an argument stands for once its outermost accessor is resolved: the op itself where it
/// is no accessor. `None` where resolution fails: an index that is not a constant or is out of
/// bounds, or an access into something other than a vector (or a matrix whose rows are matrices).
pub open spec fn resolve(g: Graph, p: int) -> Option<int>
    decreases g.rank@[p], 0int,
    when g.wf() && 0 <= p < g.ops.len()
{
    match g.ops@[p] {
        Op::Accessor(a) => {
            proof {
                assert(op_children(g.ops@[p])[0] == a.indexable);
            }
            match a.access_type {
                MirAccessType::Default => Some(a.indexable.ptr as int),
                MirAccessType::Index(i) => match (const_index_of(g.ops@[i.ptr as int]), resolve_base(g, a.indexable.ptr as int)) {
                    (Some(k), Some(b)) => match g.ops@[b] {
                        Op::Vector(v) => if k < v.elements.len() {
                            Some(v.elements@[k as int].ptr as int)
                        } else {
                            None
                        },
                        Op::Matrix(m) => if k < m.elements.len() {
                            Some(m.elements@[k as int].ptr as int)
                        } else {
                            None
                        },
                        _ => None,
                    },
                    _ => None,
                },
                MirAccessType::Matrix(r, c) => match (
                    const_index_of(g.ops@[r.ptr as int]),
                    const_index_of(g.ops@[c.ptr as int]),
                    resolve_base(g, a.indexable.ptr as int),
                ) {
                    (Some(ri), Some(ci), Some(b)) => match g.ops@[b] {
                        Op::Matrix(m) => if ri < m.elements.len() {
                            match g.ops@[m.elements@[ri as int].ptr as int] {
                                Op::Matrix(row) => if ci < row.elements.len() {
                                    Some(row.elements@[ci as int].ptr as int)
                                } else {
                                    None
                                },
                                _ => None,
                            }
                        } else {
                            None
                        },
                        _ => None,
                    },
                    _ => None,
                },
            }
        },
        _ => Some(p),
    }
}

/// Resolve accessors until the op is no accessor.
pub open spec fn resolve_base(g: Graph, p: int) -> Option<int>
    decreases g.rank@[p], 1int,
    when g.wf() && 0 <= p < g.ops.len()
{
    if g.ops@[p] is Accessor {
        match resolve(g, p) {
            Some(y) => if 0 <= y < g.ops.len() && g.rank@[y] < g.rank@[p] {
                resolve_base(g, y)
            } else {
                None
            },
            None => None,
        }
    } else {
        Some(p)
    }
}

/// Resolving accessors ends at an op of the graph that is no accessor, no higher than the start.
proof fn lemma_resolve_base(g: Graph, p: int)
    requires
        g.wf(),
        0 <= p < g.ops.len(),
    ensures
        resolve_base(g, p) matches Some(b) ==> 0 <= b < g.ops.len() && g.rank@[b] <= g.rank@[p] && !(g.ops@[b] is Accessor),
    decreases g.rank@[p],
{
    if g.ops@[p] is Accessor {
        if let Some(y) = resolve(g, p) {
            if 0 <= y < g.ops.len() && g.rank@[y] < g.rank@[p] {
                lemma_resolve_base(g, y);
            }
        }
    }
}

/// Resolving an accessor gives an op of the graph of lower rank; any other op resolves to itself.
proof fn lemma_resolve(g: Graph, p: int)
    requires
        g.wf(),
        0 <= p < g.ops.len(),
    ensures
        resolve(g, p) matches Some(y) ==> 0 <= y < g.ops.len() && (g.ops@[p] is Accessor ==> g.rank@[y] < g.rank@[p])
            && (!(g.ops@[p] is Accessor) ==> y == p),
{
    if let Op::Accessor(a) = g.ops@[p] {
        let x = a.indexable.ptr as int;
        assert(op_children(g.ops@[p])[0] == a.indexable);
        lemma_resolve_base(g, x);
        match a.access_type {
            MirAccessType::Default => {},
            MirAccessType::Index(i) => {
                if let (Some(k), Some(b)) = (const_index_of(g.ops@[i.ptr as int]), resolve_base(g, x)) {
                    match g.ops@[b] {
                        Op::Vector(v) => {
                            if k < v.elements.len() {
                                assert(op_children(g.ops@[b])[k as int] == v.elements@[k as int]);
                            }
                        },
                        Op::Matrix(m) => {
                            if k < m.elements.len() {
                                assert(op_children(g.ops@[b])[k as int] == m.elements@[k as int]);
                            }
                        },
                        _ => {},
                    }
                }
            },
            MirAccessType::Matrix(r, c) => {
                if let (Some(ri), Some(ci), Some(b)) = (
                    const_index_of(g.ops@[r.ptr as int]),
                    const_index_of(g.ops@[c.ptr as int]),
                    resolve_base(g, x),
                ) {
                    if let Op::Matrix(m) = g.ops@[b] {
                        if ri < m.elements.len() {
                            let row = m.elements@[ri as int].ptr as int;
                            assert(op_children(g.ops@[b])[ri as int] == m.elements@[ri as int]);
                            if let Op::Matrix(rm) = g.ops@[row] {
                                if ci < rm.elements.len() {
                                    assert(op_children(g.ops@[row])[ci as int] == rm.elements@[ci as int]);
                                }
                            }
                        }
                    }
                }
            },
        }
    }
}

/// The constant an index op holds, as an index.
fn constant_index(g: &Graph, index: &Link<Op>) -> (r: Option<usize>)
    requires
        index.ptr < g.ops.len(),
    ensures
        r == const_index_of(g.ops@[index.ptr as int]),
{
    match get_inner_const(g, index) {
        Some(c) => Some(c as usize),
        None => None,
    }
}

/// Helper function to recursively extract the outermost accessors if the op is an accessor,
/// otherwise return the op unchanged.
pub fn extract_accessor(g: &Graph, op: Link<Op>) -> (r: Link<Op>)
    requires
        g.wf(),
        op.ptr < g.ops.len(),
        resolve(*g, op.ptr as int) is Some,
    ensures
        Some(r.ptr as int) == resolve(*g, op.ptr as int),
        r.ptr < g.ops.len(),
    decreases g.rank@[op.ptr as int],
{
    proof {
        lemma_resolve(*g, op.ptr as int);
    }
    let accessor = match &g.ops[op.ptr] {
        Op::Accessor(a) => a,
        _ => {
            return op;
        },
    };
    proof {
        assert(op_children(g.ops@[op.ptr as int])[0] == accessor.indexable);
    }
    let mut indexable = accessor.indexable;
    match &accessor.access_type {
        MirAccessType::Default => accessor.indexable,
        MirAccessType::Index(idx_op) => {
            proof {
                assert(op_children(g.ops@[op.ptr as int])[1] == *idx_op);
            }
            let idx = match constant_index(g, idx_op) {
                Some(k) => k,
                None => {
                    return op;
                },
            };
            while matches!(g.ops[indexable.ptr], Op::Accessor(_))
                invariant
                    g.wf(),
                    indexable.ptr < g.ops.len(),
                    g.rank@[indexable.ptr as int] < g.rank@[op.ptr as int],
                    resolve_base(*g, indexable.ptr as int) == resolve_base(*g, accessor.indexable.ptr as int),
                    resolve_base(*g, indexable.ptr as int) is Some,
                decreases g.rank@[indexable.ptr as int],
            {
                proof {
                    lemma_resolve(*g, indexable.ptr as int);
                }
                indexable = extract_accessor(g, indexable);
            }
            match &g.ops[indexable.ptr] {
                Op::Vector(v) => v.elements[idx],
                Op::Matrix(m) => m.elements[idx],
                _ => op,
            }
        },
        MirAccessType::Matrix(row, col) => {
            proof {
                assert(op_children(g.ops@[op.ptr as int])[1] == *row);
                assert(op_children(g.ops@[op.ptr as int])[2] == *col);
            }
            let row = match constant_index(g, row) {
                Some(k) => k,
                None => {
                    return op;
                },
            };
            let col = match constant_index(g, col) {
                Some(k) => k,
                None => {
                    return op;
                },
            };
            while matches!(g.ops[indexable.ptr], Op::Accessor(_))
                invariant
                    g.wf(),
                    indexable.ptr < g.ops.len(),
                    g.rank@[indexable.ptr as int] < g.rank@[op.ptr as int],
                    resolve_base(*g, indexable.ptr as int) == resolve_base(*g, accessor.indexable.ptr as int),
                    resolve_base(*g, indexable.ptr as int) is Some,
                decreases g.rank@[indexable.ptr as int],
            {
                proof {
                    lemma_resolve(*g, indexable.ptr as int);
                }
                indexable = extract_accessor(g, indexable);
            }
            match &g.ops[indexable.ptr] {
                Op::Matrix(m) => {
                    let r = m.elements[row];
                    proof {
                        assert(op_children(g.ops@[indexable.ptr as int])[row as int] == r);
                    }
                    match &g.ops[r.ptr] {
                        Op::Matrix(rm) => rm.elements[col],
                        _ => op,
                    }
                },
                _ => op,
            }
        },
    }
}

/// One argument a trace segment's vector of arguments unpacks to: an op of the graph, or a new
/// binding of a single trace column.
#[derive(Copy, Clone, PartialEq, Eq, Structural, Debug)]
pub enum ArgPiece {
    Existing(usize),
    Column(TraceAccessBinding, SourceSpan),
}

/// An element of a vector argument is accepted: behind its accessors, a felt parameter, a
/// constant or a trace access.
pub open spec fn element_ok(g: Graph, e: int) -> bool {
    match resolve(g, e) {
        Some(z) => match g.ops@[z] {
            Op::Parameter(p) => p.ty == MirType::Felt,
            Op::Value(v) => v.value.value is Constant || v.value.value is TraceAccess,
            _ => false,
        },
        None => false,
    }
}

/// An argument child is accepted: behind its accessors, a binding of trace columns (whose
/// offsets fit in `usize`), a trace access, a felt or vector parameter, or a vector of accepted
/// elements.
pub open spec fn arg_child_ok(g: Graph, c: int) -> bool {
    match resolve(g, c) {
        Some(y) => match g.ops@[y] {
            Op::Value(v) => match v.value.value {
                MirValue::TraceAccessBinding(t) => t.offset + t.size <= usize::MAX,
                MirValue::TraceAccess(_) => true,
                _ => false,
            },
            Op::Parameter(p) => p.ty is Felt || p.ty is Vector,
            Op::Vector(v) => forall|j: int| 0 <= j < v.elements.len() ==> #[trigger] element_ok(g, v.elements@[j].ptr as int),
            _ => false,
        },
        None => false,
    }
}

/// How many trace columns an argument child counts for.
pub open spec fn arg_child_size(g: Graph, c: int) -> nat {
    match resolve(g, c) {
        Some(y) => match g.ops@[y] {
            Op::Value(v) => match v.value.value {
                MirValue::TraceAccessBinding(t) => t.size as nat,
                MirValue::TraceAccess(_) => 1,
                _ => 0,
            },
            Op::Parameter(p) => match p.ty {
                MirType::Felt => 1,
                MirType::Vector(len) => len as nat,
                _ => 0,
            },
            Op::Vector(v) => v.elements@.len(),
            _ => 0,
        },
        None => 0,
    }
}

/// The arguments an argument child unpacks to: a binding of several trace columns to one new
/// binding per column; a vector to its elements behind their accessors; anything else to itself
/// behind its accessors.
pub open spec fn arg_child_pieces(g: Graph, c: int) -> Seq<ArgPiece> {
    match resolve(g, c) {
        Some(y) => match g.ops@[y] {
            Op::Value(v) => match v.value.value {
                MirValue::TraceAccessBinding(t) => if t.size > 1 {
                    Seq::new(
                        t.size as nat,
                        |i: int| ArgPiece::Column(TraceAccessBinding { segment: t.segment, offset: (t.offset + i) as usize, size: 1 }, v.value.span),
                    )
                } else {
                    seq![ArgPiece::Existing(y as usize)]
                },
                _ => seq![ArgPiece::Existing(y as usize)],
            },
            Op::Vector(v) => Seq::new(
                v.elements@.len(),
                |j: int| ArgPiece::Existing(resolve(g, v.elements@[j].ptr as int).unwrap() as usize),
            ),
            _ => seq![ArgPiece::Existing(y as usize)],
        },
        None => Seq::empty(),
    }
}

/// The number of trace columns the children of a vector argument count for.
pub open spec fn children_size(g: Graph, cs: Seq<Link<Op>>) -> nat
    decreases cs.len(),
{
    if cs.len() == 0 {
        0
    } else {
        children_size(g, cs.drop_last()) + arg_child_size(g, cs.last().ptr as int)
    }
}

/// The arguments the children of a vector argument unpack to, child after child.
pub open spec fn children_pieces(g: Graph, cs: Seq<Link<Op>>) -> Seq<ArgPiece>
    decreases cs.len(),
{
    if cs.len() == 0 {
        Seq::empty()
    } else {
        children_pieces(g, cs.drop_last()) + arg_child_pieces(g, cs.last().ptr as int)
    }
}

/// All children of a vector argument are ops of the graph, accepted, and their count of trace
/// columns fits in `usize`.
pub open spec fn children_ok(g: Graph, cs: Seq<Link<Op>>) -> bool {
    &&& forall|j: int| 0 <= j < cs.len() ==> (#[trigger] cs[j]).ptr < g.ops.len()
    &&& forall|j: int| 0 <= j < cs.len() ==> arg_child_ok(g, (#[trigger] cs[j]).ptr as int)
    &&& children_size(g, cs) <= usize::MAX
}

/// The count of a prefix of the children is at most that of all of them.
proof fn lemma_children_size_prefix(g: Graph, cs: Seq<Link<Op>>, i: int)
    requires
        0 <= i <= cs.len(),
    ensures
        children_size(g, cs.take(i)) <= children_size(g, cs),
    decreases cs.len(),
{
    if i < cs.len() {
        assert(cs.drop_last().take(i) =~= cs.take(i));
        lemma_children_size_prefix(g, cs.drop_last(), i);
    } else {
        assert(cs.take(i) =~= cs);
    }
}

/// The count and the arguments of one argument child.
fn plan_arg_child(g: &Graph, child: Link<Op>) -> (r: (usize, Vec<ArgPiece>))
    requires
        g.wf(),
        child.ptr < g.ops.len(),
        arg_child_ok(*g, child.ptr as int),
        arg_child_size(*g, child.ptr as int) <= usize::MAX,
    ensures
        r.0 == arg_child_size(*g, child.ptr as int),
        r.1@ == arg_child_pieces(*g, child.ptr as int),
        forall|j: int| 0 <= j < r.1.len() ==> (#[trigger] r.1@[j] matches ArgPiece::Existing(p) ==> p < g.ops.len()),
{
    let c = extract_accessor(g, child);
    match &g.ops[c.ptr] {
        Op::Value(v) => match &v.value.value {
            MirValue::TraceAccessBinding(tab) => {
                let mut pieces: Vec<ArgPiece> = Vec::new();
                if tab.size > 1 {
                    let mut index: usize = 0;
                    while index < tab.size
                        invariant
                            index <= tab.size,
                            tab.offset + tab.size <= usize::MAX,
                            pieces@ == Seq::new(
                                index as nat,
                                |i: int| ArgPiece::Column(TraceAccessBinding { segment: tab.segment, offset: (tab.offset + i) as usize, size: 1 }, v.value.span),
                            ),
                        decreases tab.size - index,
                    {
                        pieces.push(ArgPiece::Column(TraceAccessBinding { segment: tab.segment, offset: tab.offset + index, size: 1 }, v.value.span));
                        index = index + 1;
                        proof {
                            assert(pieces@ =~= Seq::new(
                                index as nat,
                                |i: int| ArgPiece::Column(TraceAccessBinding { segment: tab.segment, offset: (tab.offset + i) as usize, size: 1 }, v.value.span),
                            ));
                        }
                    }
                } else {
                    pieces.push(ArgPiece::Existing(c.ptr));
                }
                (tab.size, pieces)
            },
            MirValue::TraceAccess(_) => (1, vec![ArgPiece::Existing(c.ptr)]),
            _ => (0, Vec::new()),
        },
        Op::Parameter(param) => {
            let size = match param.ty {
                MirType::Felt => 1,
                MirType::Vector(len) => len,
                _ => 0,
            };
            (size, vec![ArgPiece::Existing(c.ptr)])
        },
        Op::Vector(v) => {
            let mut pieces: Vec<ArgPiece> = Vec::new();
            let mut j: usize = 0;
            while j < v.elements.len()
                invariant
                    g.wf(),
                    c.ptr < g.ops.len(),
                    g.ops@[c.ptr as int] == Op::Vector(*v),
                    forall|k: int| 0 <= k < v.elements.len() ==> #[trigger] element_ok(*g, v.elements@[k].ptr as int),
                    j <= v.elements.len(),
                    pieces@ == Seq::new(j as nat, |k: int| ArgPiece::Existing(resolve(*g, v.elements@[k].ptr as int).unwrap() as usize)),
                    forall|k: int| 0 <= k < pieces.len() ==> (#[trigger] pieces@[k] matches ArgPiece::Existing(p) ==> p < g.ops.len()),
                decreases v.elements.len() - j,
            {
                let e = v.elements[j];
                proof {
                    assert(op_children(g.ops@[c.ptr as int])[j as int] == e);
                    assert(element_ok(*g, v.elements@[j as int].ptr as int));
                }
                let inner = extract_accessor(g, e);
                pieces.push(ArgPiece::Existing(inner.ptr));
                j = j + 1;
                proof {
                    assert(pieces@ =~= Seq::new(j as nat, |k: int| ArgPiece::Existing(resolve(*g, v.elements@[k].ptr as int).unwrap() as usize)));
                }
            }
            (v.elements.len(), pieces)
        },
        _ => (0, Vec::new()),
    }
}

/// The count and the arguments of the children of a vector argument.
fn plan_arg_children(g: &Graph, children: &Vec<Link<Op>>) -> (r: (usize, Vec<ArgPiece>))
    requires
        g.wf(),
        children_ok(*g, children@),
    ensures
        r.0 == children_size(*g, children@),
        r.1@ == children_pieces(*g, children@),
        forall|j: int| 0 <= j < r.1.len() ==> (#[trigger] r.1@[j] matches ArgPiece::Existing(p) ==> p < g.ops.len()),
{
    let mut size: usize = 0;
    let mut pieces: Vec<ArgPiece> = Vec::new();
    let mut i: usize = 0;
    while i < children.len()
        invariant
            g.wf(),
            children_ok(*g, children@),
            i <= children.len(),
            size == children_size(*g, children@.take(i as int)),
            pieces@ == children_pieces(*g, children@.take(i as int)),
            forall|j: int| 0 <= j < pieces.len() ==> (#[trigger] pieces@[j] matches ArgPiece::Existing(p) ==> p < g.ops.len()),
        decreases children.len() - i,
    {
        proof {
            assert(children@.take(i + 1).drop_last() =~= children@.take(i as int));
            lemma_children_size_prefix(*g, children@, i + 1);
        }
        let (n, mut more) = plan_arg_child(g, children[i]);
        size = size + n;
        pieces.append(&mut more);
        i = i + 1;
    }
    proof {
        assert(children@.take(children.len() as int) =~= children@);
    }
    (size, pieces)
}

/// The op `l` is what the piece stands for: the op itself, or a new binding of one trace column
/// made in a slot from `n0` on.
pub open spec fn piece_made(g: Graph, n0: nat, piece: ArgPiece, l: Link<Op>) -> bool {
    match piece {
        ArgPiece::Existing(p) => l.ptr == p,
        ArgPiece::Column(t, span) => {
            &&& n0 <= l.ptr < g.ops.len()
            &&& g.ops@[l.ptr as int] matches Op::Value(v) && same_value(v.value.value, MirValue::TraceAccessBinding(t))
                && v.value.span == span
        },
    }
}

/// Make the arguments the pieces stand for, adding the new bindings to the graph.
fn make_args(g: &mut Graph, pieces: &Vec<ArgPiece>) -> (r: Vec<Link<Op>>)
    requires
        old(g).wf(),
        forall|j: int| 0 <= j < pieces.len() ==> (#[trigger] pieces@[j] matches ArgPiece::Existing(p) ==> p < old(g).ops.len()),
    ensures
        final(g).wf(),
        final(g).ops.len() >= old(g).ops.len(),
        forall|i: int| 0 <= i < old(g).ops.len() ==> final(g).ops@[i] == old(g).ops@[i],
        final(g).roots == old(g).roots,
        final(g).buses == old(g).buses,
        final(g).boundary_constraints_roots == old(g).boundary_constraints_roots,
        final(g).integrity_constraints_roots == old(g).integrity_constraints_roots,
        r.len() == pieces.len(),
        forall|j: int| 0 <= j < pieces.len() ==> piece_made(*final(g), old(g).ops.len() as nat, #[trigger] pieces@[j], r@[j]),
{
    let ghost g0 = *g;
    let mut r: Vec<Link<Op>> = Vec::new();
    let mut j: usize = 0;
    while j < pieces.len()
        invariant
            g.wf(),
            g.ops.len() >= g0.ops.len(),
            forall|i: int| 0 <= i < g0.ops.len() ==> g.ops@[i] == g0.ops@[i],
            g.roots == g0.roots,
            g.buses == g0.buses,
            g.boundary_constraints_roots == g0.boundary_constraints_roots,
            g.integrity_constraints_roots == g0.integrity_constraints_roots,
            j <= pieces.len(),
            r.len() == j,
            forall|k: int| 0 <= k < j ==> piece_made(*g, g0.ops.len() as nat, #[trigger] pieces@[k], r@[k]),
        decreases pieces.len() - j,
    {
        let ghost before = *g;
        let l = match pieces[j] {
            ArgPiece::Existing(p) => Link::new(p),
            ArgPiece::Column(tab, span) => Value::create(
                g,
                SpannedMirValue { span, value: MirValue::TraceAccessBinding(tab) },
                span,
            ),
        };
        r.push(l);
        proof {
            assert forall|k: int| 0 <= k < j + 1 implies piece_made(*g, g0.ops.len() as nat, #[trigger] pieces@[k], r@[k]) by {
                if k < j {
                    assert(piece_made(before, g0.ops.len() as nat, pieces@[k], r@[k]));
                    if let ArgPiece::Column(_, _) = pieces@[k] {
                        assert(g.ops@[r@[k].ptr as int] == before.ops@[r@[k].ptr as int]);
                    }
                }
            }
        }
        j = j + 1;
    }
    r
}

/// Unpack the children of a trace segment's vector of arguments: count the trace columns they
/// bind, and list the arguments they stand for, a binding of several columns becoming one new
/// binding per column.
pub fn process_evaluator_arg_children(g: &mut Graph, children: &Vec<Link<Op>>) -> (r: (usize, Vec<Link<Op>>))
    requires
        old(g).wf(),
        children_ok(*old(g), children@),
    ensures
        final(g).wf(),
        final(g).ops.len() >= old(g).ops.len(),
        forall|i: int| 0 <= i < old(g).ops.len() ==> final(g).ops@[i] == old(g).ops@[i],
        final(g).roots == old(g).roots,
        final(g).buses == old(g).buses,
        final(g).boundary_constraints_roots == old(g).boundary_constraints_roots,
        final(g).integrity_constraints_roots == old(g).integrity_constraints_roots,
        r.0 == children_size(*old(g), children@),
        r.1.len() == children_pieces(*old(g), children@).len(),
        forall|j: int| 0 <= j < r.1.len() ==> piece_made(*final(g), old(g).ops.len() as nat, #[trigger] children_pieces(*old(g), children@)[j], r.1@[j]),
{
    let (size, pieces) = plan_arg_children(g, children);
    let args = make_args(g, &pieces);
    (size, args)
}

/// A trace segment's argument is a vector of the graph whose children are accepted.
pub open spec fn segment_arg_ok(g: Graph, a: Link<Op>) -> bool {
    &&& a.ptr < g.ops.len()
    &&& g.ops@[a.ptr as int] matches Op::Vector(v) && children_ok(g, v.elements@)
}

/// The children of a trace segment's vector of arguments.
pub open spec fn segment_children(g: Graph, a: Link<Op>) -> Seq<Link<Op>> {
    match g.ops@[a.ptr as int] {
        Op::Vector(v) => v.elements@,
        _ => Seq::empty(),
    }
}

/// The arguments the trace segments' vectors unpack to, segment after segment.
pub open spec fn args_pieces(g: Graph, args: Seq<Link<Op>>) -> Seq<ArgPiece>
    decreases args.len(),
{
    if args.len() == 0 {
        Seq::empty()
    } else {
        args_pieces(g, args.drop_last()) + children_pieces(g, segment_children(g, args.last()))
    }
}

/// Helper function to unpack the arguments of a call to an evaluator: one vector per trace
/// segment, each unpacked as [process_evaluator_arg_children] does.
pub fn unpack_evaluator_arguments(g: &mut Graph, args: &Vec<Link<Op>>) -> (r: Vec<Link<Op>>)
    requires
        old(g).wf(),
        forall|j: int| 0 <= j < args.len() ==> segment_arg_ok(*old(g), #[trigger] args@[j]),
    ensures
        final(g).wf(),
        final(g).ops.len() >= old(g).ops.len(),
        forall|i: int| 0 <= i < old(g).ops.len() ==> final(g).ops@[i] == old(g).ops@[i],
        final(g).roots == old(g).roots,
        final(g).buses == old(g).buses,
        final(g).boundary_constraints_roots == old(g).boundary_constraints_roots,
        final(g).integrity_constraints_roots == old(g).integrity_constraints_roots,
        r.len() == args_pieces(*old(g), args@).len(),
        forall|j: int| 0 <= j < r.len() ==> piece_made(*final(g), old(g).ops.len() as nat, #[trigger] args_pieces(*old(g), args@)[j], r@[j]),
{
    let mut pieces: Vec<ArgPiece> = Vec::new();
    let mut i: usize = 0;
    while i < args.len()
        invariant
            g.wf(),
            forall|j: int| 0 <= j < args.len() ==> segment_arg_ok(*g, #[trigger] args@[j]),
            i <= args.len(),
            pieces@ == args_pieces(*g, args@.take(i as int)),
            forall|j: int| 0 <= j < pieces.len() ==> (#[trigger] pieces@[j] matches ArgPiece::Existing(p) ==> p < g.ops.len()),
        decreases args.len() - i,
    {
        proof {
            assert(args@.take(i + 1).drop_last() =~= args@.take(i as int));
            assert(segment_arg_ok(*g, args@[i as int]));
        }
        match &g.ops[args[i].ptr] {
            Op::Vector(v) => {
                let (_, mut more) = plan_arg_children(g, &v.elements);
                pieces.append(&mut more);
            },
            _ => {},
        }
        i = i + 1;
    }
    proof {
        assert(args@.take(args.len() as int) =~= args@);
    }
    make_args(g, &pieces)
}

/// The trace segments for which the call's arguments do not count as many columns as the
/// callee has parameters.
pub open spec fn size_mismatch(g: Graph, args: Seq<Link<Op>>, callee_params: Seq<Vec<Link<Op>>>, s: int) -> bool {
    &&& 0 <= s < args.len()
    &&& s < callee_params.len()
    &&& callee_params[s].len() != children_size(g, segment_children(g, args[s]))
}

/// Helper function to check, for each trace segment, that the total size of arguments is
/// correct. Only the segments present both in the arguments and in the parameters are checked;
/// the first one that does not match is reported.
pub fn check_evaluator_argument_sizes(
    g: &Graph,
    args: &Vec<Link<Op>>,
    callee_params: Vec<Vec<Link<Op>>>,
    diagnostics: &mut DiagnosticsHandler,
) -> (r: Result<(), CompileError>)
    requires
        g.wf(),
        forall|j: int| 0 <= j < args.len() && j < callee_params.len() ==> segment_arg_ok(*g, #[trigger] args@[j]),
    ensures
        r is Err <==> exists|s: int| size_mismatch(*g, args@, callee_params@, s),
        r is Ok ==> final(diagnostics).emitted@ == old(diagnostics).emitted@,
        r is Err ==> r == Err::<(), CompileError>(CompileError::Failed) && final(diagnostics).emitted@
            == old(diagnostics).emitted@.push(
            Diagnostic { kind: DiagnosticKind::ArgumentCountMismatch, span: SourceSpan { source_id: 0, start: 0, end: 0 } },
        ),
{
    let mut s: usize = 0;
    while s < args.len() && s < callee_params.len()
        invariant
            g.wf(),
            forall|j: int| 0 <= j < args.len() && j < callee_params.len() ==> segment_arg_ok(*g, #[trigger] args@[j]),
            s <= args.len(),
            forall|t: int| 0 <= t < s ==> !size_mismatch(*g, args@, callee_params@, t),
            diagnostics.emitted@ == old(diagnostics).emitted@,
        decreases args.len() - s,
    {
        proof {
            assert(segment_arg_ok(*g, args@[s as int]));
        }
        let size = match &g.ops[args[s].ptr] {
            Op::Vector(v) => plan_arg_children(g, &v.elements).0,
            _ => 0,
        };
        if callee_params[s].len() != size {
            proof {
                assert(size_mismatch(*g, args@, callee_params@, s as int));
            }
            diagnostics.emit(DiagnosticKind::ArgumentCountMismatch, SourceSpan::default());
            return Err(CompileError::Failed);
        }
        s = s + 1;
    }
    proof {
        assert forall|t: int| !size_mismatch(*g, args@, callee_params@, t) by {}
    }
    Ok(())
}

/// The argument child unpacks to one argument per trace column it counts for: it is no vector
/// parameter and no binding of zero columns.
pub open spec fn unpacks_one_per_column(g: Graph, c: int) -> bool {
    match resolve(g, c) {
        Some(y) => match g.ops@[y] {
            Op::Parameter(p) => p.ty is Felt,
            Op::Value(v) => match v.value.value {
                MirValue::TraceAccessBinding(t) => t.size > 0,
                _ => true,
            },
            _ => true,
        },
        None => true,
    }
}

/// Where no child is a vector parameter or a binding of zero columns, the children unpack to
/// exactly as many arguments as the trace columns they count for, the number that the size check
/// compares with the callee's parameters.
pub proof fn law_unpacked_count_is_size(g: Graph, cs: Seq<Link<Op>>)
    requires
        g.wf(),
        children_ok(g, cs),
        forall|j: int| 0 <= j < cs.len() ==> unpacks_one_per_column(g, (#[trigger] cs[j]).ptr as int),
    ensures
        children_pieces(g, cs).len() == children_size(g, cs),
    decreases cs.len(),
{
    if cs.len() > 0 {
        let rest = cs.drop_last();
        assert forall|j: int| 0 <= j < rest.len() implies (#[trigger] rest[j]).ptr < g.ops.len() by {
            assert(rest[j] == cs[j]);
        }
        assert forall|j: int| 0 <= j < rest.len() implies arg_child_ok(g, (#[trigger] rest[j]).ptr as int) by {
            assert(rest[j] == cs[j]);
        }
        assert forall|j: int| 0 <= j < rest.len() implies unpacks_one_per_column(g, (#[trigger] rest[j]).ptr as int) by {
            assert(rest[j] == cs[j]);
        }
        lemma_children_size_prefix(g, cs, cs.len() - 1);
        assert(cs.take(cs.len() - 1) =~= rest);
        law_unpacked_count_is_size(g, rest);
        let c = cs.last().ptr as int;
        assert(arg_child_ok(g, cs[cs.len() - 1].ptr as int));
        assert(unpacks_one_per_column(g, cs[cs.len() - 1].ptr as int));
        assert(arg_child_pieces(g, c).len() == arg_child_size(g, c));
    }
}

} // verus!
