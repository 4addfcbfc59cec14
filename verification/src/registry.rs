//! The declarations of the graph: its functions, evaluators and buses, each under its name.
//!
//! Each kind is kept in a table of `(name, handle)` entries, sorted by name with no name twice,
//! so that it reads as a map from names to handles.
use vstd::prelude::*;

use crate::graph::Graph;
use crate::ir::{Bus, Evaluator, Function, Root};
use crate::link::Link;
use crate::passes::CompileError;
use crate::value::{NamespacedIdentifier, QualifiedIdentifier};

verus! {

/// The item part of a name as a pair: function names come before binding names.
pub open spec fn item_kind(item: NamespacedIdentifier) -> int {
    match item {
        NamespacedIdentifier::Function(_) => 0,
        NamespacedIdentifier::Binding(_) => 1,
    }
}

/// The symbol of the item part of a name.
pub open spec fn item_symbol(item: NamespacedIdentifier) -> u32 {
    match item {
        NamespacedIdentifier::Function(x) => x.0,
        NamespacedIdentifier::Binding(x) => x.0,
    }
}

/// The order of names: by module, then by kind of item, then by item.
pub open spec fn name_lt(a: QualifiedIdentifier, b: QualifiedIdentifier) -> bool {
    ||| a.module.0 < b.module.0
    ||| a.module.0 == b.module.0 && item_kind(a.item) < item_kind(b.item)
    ||| a.module.0 == b.module.0 && item_kind(a.item) == item_kind(b.item) && item_symbol(a.item)
        < item_symbol(b.item)
}

/// Each entry's name comes strictly before the next one's: every name is there at most once.
pub open spec fn keys_sorted<T>(t: Seq<(QualifiedIdentifier, Link<T>)>) -> bool {
    forall|i: int, j: int| 0 <= i < j < t.len() ==> name_lt(#[trigger] t[i].0, #[trigger] t[j].0)
}

/// The table read as a map from names to handles.
pub open spec fn table_map<T>(t: Seq<(QualifiedIdentifier, Link<T>)>) -> Map<QualifiedIdentifier, Link<T>> {
    Map::new(
        |k: QualifiedIdentifier| exists|i: int| 0 <= i < t.len() && (#[trigger] t[i]).0 == k,
        |k: QualifiedIdentifier| t[choose|i: int| 0 <= i < t.len() && (#[trigger] t[i]).0 == k].1,
    )
}

/// What a lookup of `ident` in the map gives.
pub open spec fn lookup<T>(m: Map<QualifiedIdentifier, Link<T>>, ident: QualifiedIdentifier) -> Option<Link<T>> {
    if m.contains_key(ident) {
        Some(m[ident])
    } else {
        None
    }
}

/// Two names neither of which comes before the other are the same name.
pub proof fn lemma_name_order_total(a: QualifiedIdentifier, b: QualifiedIdentifier)
    ensures
        !name_lt(a, a),
        !name_lt(a, b) && !name_lt(b, a) ==> a == b,
{
    if !name_lt(a, b) && !name_lt(b, a) {
        assert(a.module == b.module);
        match a.item {
            NamespacedIdentifier::Function(x) => {
                assert(b.item == NamespacedIdentifier::Function(x));
            },
            NamespacedIdentifier::Binding(x) => {
                assert(b.item == NamespacedIdentifier::Binding(x));
            },
        }
    }
}

/// In a sorted table, the entry at `i` is what the map gives for its name.
pub proof fn lemma_table_entry<T>(t: Seq<(QualifiedIdentifier, Link<T>)>, i: int)
    requires
        keys_sorted(t),
        0 <= i < t.len(),
    ensures
        table_map(t).contains_key(t[i].0),
        table_map(t)[t[i].0] == t[i].1,
{
    let k = t[i].0;
    assert(exists|j: int| 0 <= j < t.len() && (#[trigger] t[j]).0 == k);
    let j = choose|j: int| 0 <= j < t.len() && (#[trigger] t[j]).0 == k;
    lemma_name_order_total(k, k);
    if j < i {
        assert(name_lt(t[j].0, t[i].0));
    } else if i < j {
        assert(name_lt(t[i].0, t[j].0));
    }
}

/// Does name `a` come before name `b`?
fn name_less(a: &QualifiedIdentifier, b: &QualifiedIdentifier) -> (r: bool)
    ensures
        r == name_lt(*a, *b),
{
    let (ak, asym): (u8, u32) = match a.item {
        NamespacedIdentifier::Function(x) => (0, x.0),
        NamespacedIdentifier::Binding(x) => (1, x.0),
    };
    let (bk, bsym): (u8, u32) = match b.item {
        NamespacedIdentifier::Function(x) => (0, x.0),
        NamespacedIdentifier::Binding(x) => (1, x.0),
    };
    a.module.0 < b.module.0 || (a.module.0 == b.module.0 && (ak < bk || (ak == bk && asym < bsym)))
}

/// The first slot of a sorted table whose name does not come before `ident`.
fn find_slot<T>(t: &Vec<(QualifiedIdentifier, Link<T>)>, ident: &QualifiedIdentifier) -> (p: usize)
    requires
        keys_sorted(t@),
    ensures
        p <= t.len(),
        forall|i: int| 0 <= i < p ==> name_lt((#[trigger] t@[i]).0, *ident),
        forall|i: int| p <= i < t.len() ==> !name_lt((#[trigger] t@[i]).0, *ident),
{
    let mut p: usize = 0;
    while p < t.len() && name_less(&t[p].0, ident)
        invariant
            keys_sorted(t@),
            p <= t.len(),
            forall|i: int| 0 <= i < p ==> name_lt((#[trigger] t@[i]).0, *ident),
        decreases t.len() - p,
    {
        p = p + 1;
    }
    proof {
        assert forall|i: int| p <= i < t.len() implies !name_lt((#[trigger] t@[i]).0, *ident) by {
            if i > p {
                assert(name_lt(t@[p as int].0, t@[i].0));
            }
        }
    }
    p
}

/// The handle kept under `ident`, if any.
pub fn table_get<T>(t: &Vec<(QualifiedIdentifier, Link<T>)>, ident: &QualifiedIdentifier) -> (r: Option<Link<T>>)
    requires
        keys_sorted(t@),
    ensures
        r == lookup(table_map(t@), *ident),
{
    let p = find_slot(t, ident);
    if p < t.len() && t[p].0 == *ident {
        proof {
            lemma_table_entry(t@, p as int);
        }
        Some(t[p].1)
    } else {
        proof {
            if table_map(t@).contains_key(*ident) {
                let j = choose|j: int| 0 <= j < t@.len() && (#[trigger] t@[j]).0 == *ident;
                lemma_name_order_total(*ident, *ident);
                if j > p {
                    assert(name_lt(t@[p as int].0, t@[j].0));
                    lemma_name_order_total(t@[p as int].0, *ident);
                }
            }
        }
        None
    }
}

/// Put `link` under `ident`, keeping the table sorted; gives back the handle it replaced, if any.
pub fn table_insert<T>(t: &mut Vec<(QualifiedIdentifier, Link<T>)>, ident: QualifiedIdentifier, link: Link<T>) -> (replaced: Option<Link<T>>)
    requires
        keys_sorted(old(t)@),
    ensures
        keys_sorted(final(t)@),
        table_map(final(t)@) == table_map(old(t)@).insert(ident, link),
        replaced == lookup(table_map(old(t)@), ident),
        forall|i: int| 0 <= i < final(t).len() ==> (#[trigger] final(t)@[i]) == (ident, link) || old(t)@.contains(final(t)@[i]),
{
    let ghost t0 = t@;
    let p = find_slot(t, &ident);
    if p < t.len() && t[p].0 == ident {
        let replaced = t[p].1;
        proof {
            lemma_table_entry(t0, p as int);
        }
        t.set(p, (ident, link));
        proof {
            let t1 = t@;
            assert(keys_sorted(t1)) by {
                assert forall|i: int, j: int| 0 <= i < j < t1.len() implies name_lt(#[trigger] t1[i].0, #[trigger] t1[j].0) by {
                    assert(t1[i].0 == t0[i].0);
                    assert(t1[j].0 == t0[j].0);
                }
            }
            lemma_table_update(t0, t1, p as int, ident, link);
            assert forall|i: int| 0 <= i < t1.len() implies (#[trigger] t1[i]) == (ident, link) || t0.contains(t1[i]) by {
                if i != p {
                    assert(t1[i] == t0[i]);
                }
            }
        }
        Some(replaced)
    } else {
        proof {
            if table_map(t0).contains_key(ident) {
                let j = choose|j: int| 0 <= j < t0.len() && (#[trigger] t0[j]).0 == ident;
                lemma_name_order_total(ident, ident);
                if j > p {
                    assert(name_lt(t0[p as int].0, t0[j].0));
                    lemma_name_order_total(t0[p as int].0, ident);
                }
            }
        }
        t.insert(p, (ident, link));
        proof {
            let t1 = t@;
            assert(t1 == t0.insert(p as int, (ident, link)));
            assert(keys_sorted(t1)) by {
                assert forall|i: int, j: int| 0 <= i < j < t1.len() implies name_lt(#[trigger] t1[i].0, #[trigger] t1[j].0) by {
                    if j < p {
                        assert(t1[i] == t0[i] && t1[j] == t0[j]);
                    } else if j == p {
                        assert(t1[i] == t0[i]);
                    } else if i < p {
                        assert(t1[i] == t0[i] && t1[j] == t0[j - 1]);
                        if p < t0.len() {
                            assert(!name_lt(t0[j - 1].0, ident));
                        }
                        lemma_name_order_total(t0[j - 1].0, ident);
                    } else if i == p {
                        assert(t1[j] == t0[j - 1]);
                        lemma_name_order_total(t0[j - 1].0, ident);
                    } else {
                        assert(t1[i] == t0[i - 1] && t1[j] == t0[j - 1]);
                    }
                }
            }
            lemma_table_insert(t0, t1, p as int, ident, link);
            assert forall|i: int| 0 <= i < t1.len() implies (#[trigger] t1[i]) == (ident, link) || t0.contains(t1[i]) by {
                if i < p {
                    assert(t1[i] == t0[i]);
                } else if i > p {
                    assert(t1[i] == t0[i - 1]);
                }
            }
        }
        None
    }
}

/// Overwriting the entry of `ident` at `p` gives the map with `ident` sent to `link`.
proof fn lemma_table_update<T>(
    t0: Seq<(QualifiedIdentifier, Link<T>)>,
    t1: Seq<(QualifiedIdentifier, Link<T>)>,
    p: int,
    ident: QualifiedIdentifier,
    link: Link<T>,
)
    requires
        keys_sorted(t0),
        keys_sorted(t1),
        0 <= p < t0.len(),
        t0[p].0 == ident,
        t1 == t0.update(p, (ident, link)),
    ensures
        table_map(t1) == table_map(t0).insert(ident, link),
{
    let m = table_map(t0).insert(ident, link);
    assert forall|k: QualifiedIdentifier| #[trigger] table_map(t1).contains_key(k) <==> m.contains_key(k) by {
        if table_map(t1).contains_key(k) {
            let i = choose|i: int| 0 <= i < t1.len() && (#[trigger] t1[i]).0 == k;
            if i != p {
                lemma_table_entry(t0, i);
            }
        }
        if m.contains_key(k) && k != ident {
            let i = choose|i: int| 0 <= i < t0.len() && (#[trigger] t0[i]).0 == k;
            lemma_table_entry(t1, i);
        }
        if k == ident {
            lemma_table_entry(t1, p);
        }
    }
    assert forall|k: QualifiedIdentifier| #[trigger] table_map(t1).contains_key(k) implies table_map(t1)[k] == m[k] by {
        let i = choose|i: int| 0 <= i < t1.len() && (#[trigger] t1[i]).0 == k;
        lemma_table_entry(t1, i);
        if i != p {
            lemma_table_entry(t0, i);
        }
    }
    assert(table_map(t1) =~= m);
}

/// Putting the entry of a new name `ident` at its place `p` gives the map with `ident` added.
proof fn lemma_table_insert<T>(
    t0: Seq<(QualifiedIdentifier, Link<T>)>,
    t1: Seq<(QualifiedIdentifier, Link<T>)>,
    p: int,
    ident: QualifiedIdentifier,
    link: Link<T>,
)
    requires
        keys_sorted(t0),
        keys_sorted(t1),
        0 <= p <= t0.len(),
        t1 == t0.insert(p, (ident, link)),
    ensures
        table_map(t1) == table_map(t0).insert(ident, link),
{
    let m = table_map(t0).insert(ident, link);
    assert forall|k: QualifiedIdentifier| #[trigger] table_map(t1).contains_key(k) <==> m.contains_key(k) by {
        if table_map(t1).contains_key(k) {
            let i = choose|i: int| 0 <= i < t1.len() && (#[trigger] t1[i]).0 == k;
            if i < p {
                assert(t1[i] == t0[i]);
                lemma_table_entry(t0, i);
            } else if i > p {
                assert(t1[i] == t0[i - 1]);
                lemma_table_entry(t0, i - 1);
            }
        }
        if m.contains_key(k) && k != ident {
            let i = choose|i: int| 0 <= i < t0.len() && (#[trigger] t0[i]).0 == k;
            if i < p {
                assert(t1[i] == t0[i]);
                lemma_table_entry(t1, i);
            } else {
                assert(t1[i + 1] == t0[i]);
                lemma_table_entry(t1, i + 1);
            }
        }
        if k == ident {
            lemma_table_entry(t1, p);
        }
    }
    assert forall|k: QualifiedIdentifier| #[trigger] table_map(t1).contains_key(k) implies table_map(t1)[k] == m[k] by {
        let i = choose|i: int| 0 <= i < t1.len() && (#[trigger] t1[i]).0 == k;
        lemma_table_entry(t1, i);
        if i < p {
            assert(t1[i] == t0[i]);
            lemma_table_entry(t0, i);
            lemma_table_entry(t1, p);
        } else if i > p {
            assert(t1[i] == t0[i - 1]);
            lemma_table_entry(t0, i - 1);
            lemma_table_entry(t1, p);
        }
    }
    assert(table_map(t1) =~= m);
}

/// The handles of the table, in the order of their names.
pub fn table_values<T>(t: &Vec<(QualifiedIdentifier, Link<T>)>) -> (r: Vec<Link<T>>)
    ensures
        r.len() == t.len(),
        forall|i: int| 0 <= i < t.len() ==> (#[trigger] r@[i]) == t@[i].1,
{
    let mut r: Vec<Link<T>> = Vec::new();
    let mut i: usize = 0;
    while i < t.len()
        invariant
            i <= t.len(),
            r.len() == i,
            forall|j: int| 0 <= j < i ==> (#[trigger] r@[j]) == t@[j].1,
        decreases t.len() - i,
    {
        r.push(t[i].1);
        i = i + 1;
    }
    r
}

/// `b` is `a` with at most its tables of declarations changed.
pub open spec fn same_but_tables(a: Graph, b: Graph) -> bool {
    &&& b.ops == a.ops
    &&& b.op_dropped == a.op_dropped
    &&& b.roots == a.roots
    &&& b.root_dropped == a.root_dropped
    &&& b.nodes == a.nodes
    &&& b.owners == a.owners
    &&& b.buses == a.buses
    &&& b.boundary_constraints_roots == a.boundary_constraints_roots
    &&& b.integrity_constraints_roots == a.integrity_constraints_roots
    &&& b.rank == a.rank
}

/// Is the root at `ptr` a function?
pub open spec fn is_function_root(g: Graph, ptr: usize) -> bool {
    g.roots@[ptr as int] is Function
}

/// Is the root at `ptr` an evaluator?
pub open spec fn is_evaluator_root(g: Graph, ptr: usize) -> bool {
    g.roots@[ptr as int] is Evaluator
}

/// May a declaration under a name take the place of the previous one, `prev`? Only where there
/// was none, or where the previous one's root is empty.
pub open spec fn may_replace(g: Graph, prev: Option<Link<Root>>) -> bool {
    match prev {
        None => true,
        Some(l) => g.roots@[l.ptr as int] is Nil,
    }
}

/// Looking a name up after a declaration was put under it gives that declaration back; every
/// other name gives what it gave before.
pub proof fn law_lookup_after_insert<T>(
    m: Map<QualifiedIdentifier, Link<T>>,
    ident: QualifiedIdentifier,
    link: Link<T>,
    other: QualifiedIdentifier,
)
    ensures
        lookup(m.insert(ident, link), ident) == Some(link),
        other != ident ==> lookup(m.insert(ident, link), other) == lookup(m, other),
{
}

/// A sorted table stays sorted, and within bounds, when an entry is put in.
proof fn lemma_table_bounds<T>(t0: Seq<(QualifiedIdentifier, Link<T>)>, t1: Seq<(QualifiedIdentifier, Link<T>)>, ident: QualifiedIdentifier, link: Link<T>, n: nat)
    requires
        forall|i: int| 0 <= i < t0.len() ==> (#[trigger] t0[i]).1.ptr < n,
        link.ptr < n,
        forall|i: int| 0 <= i < t1.len() ==> (#[trigger] t1[i]) == (ident, link) || t0.contains(t1[i]),
    ensures
        forall|i: int| 0 <= i < t1.len() ==> (#[trigger] t1[i]).1.ptr < n,
{
    assert forall|i: int| 0 <= i < t1.len() implies (#[trigger] t1[i]).1.ptr < n by {
        if t1[i] != (ident, link) {
            let j = choose|j: int| 0 <= j < t0.len() && t0[j] == t1[i];
            assert(t0[j].1.ptr < n);
        }
    }
}

impl Graph {
    /// Inserts a function into the graph, returning an error if the root is not a function, or
    /// if the function already exists (declaration conflict).
    ///
    /// Once the root is a function it takes the name's entry in either case; an earlier entry
    /// whose root is empty is no conflict.
    pub fn insert_function(&mut self, ident: QualifiedIdentifier, node: Link<Root>) -> (r: Result<(), CompileError>)
        requires
            old(self).wf(),
            node.ptr < old(self).roots.len(),
        ensures
            final(self).wf(),
            same_but_tables(*old(self), *final(self)),
            final(self).evaluators == old(self).evaluators,
            final(self).bus_table == old(self).bus_table,
            !is_function_root(*old(self), node.ptr) ==> r == Err::<(), CompileError>(CompileError::Failed)
                && final(self).functions == old(self).functions,
            is_function_root(*old(self), node.ptr) ==> table_map(final(self).functions@) == table_map(
                old(self).functions@,
            ).insert(ident, node) && (r is Ok <==> may_replace(*old(self), lookup(table_map(old(self).functions@), ident)))
                && (r is Err ==> r == Err::<(), CompileError>(CompileError::Failed)),
    {
        let is_function = match &self.roots[node.ptr] {
            Root::Function(_) => true,
            _ => false,
        };
        if !is_function {
            return Err(CompileError::Failed);
        }
        let ghost t0 = self.functions@;
        let replaced = table_insert(&mut self.functions, ident, node);
        proof {
            lemma_table_bounds(t0, self.functions@, ident, node, self.roots.len() as nat);
        }
        match replaced {
            None => Ok(()),
            Some(prev) => {
                proof {
                    let j = choose|j: int| 0 <= j < t0.len() && (#[trigger] t0[j]).0 == ident;
                    lemma_table_entry(t0, j);
                }
                match &self.roots[prev.ptr] {
                    Root::Nil(_) => Ok(()),
                    _ => Err(CompileError::Failed),
                }
            },
        }
    }

    /// Queries a given function as a root.
    pub fn get_function_root(&self, ident: &QualifiedIdentifier) -> (r: Option<Link<Root>>)
        requires
            self.wf(),
        ensures
            r == lookup(table_map(self.functions@), *ident),
    {
        table_get(&self.functions, ident)
    }

    /// Queries a given function as a [Function].
    pub fn get_function(&self, ident: &QualifiedIdentifier) -> (r: Option<&Function>)
        requires
            self.wf(),
            lookup(table_map(self.functions@), *ident) matches Some(l) ==> is_function_root(*self, l.ptr),
        ensures
            r is Some <==> table_map(self.functions@).contains_key(*ident),
            r matches Some(f) ==> self.roots@[table_map(self.functions@)[*ident].ptr as int] == Root::Function(*f),
    {
        match table_get(&self.functions, ident) {
            None => None,
            Some(l) => {
                proof {
                    let j = choose|j: int| 0 <= j < self.functions@.len() && (#[trigger] self.functions@[j]).0 == *ident;
                    lemma_table_entry(self.functions@, j);
                }
                match &self.roots[l.ptr] {
                    Root::Function(f) => Some(f),
                    _ => None,
                }
            },
        }
    }

    /// Queries a given function as a [Function] to modify.
    pub fn get_function_mut(&mut self, ident: &QualifiedIdentifier) -> (r: Option<&mut Function>)
        requires
            old(self).wf(),
            lookup(table_map(old(self).functions@), *ident) matches Some(l) ==> is_function_root(*old(self), l.ptr),
        ensures
            r is Some <==> table_map(old(self).functions@).contains_key(*ident),
            match r {
                Some(f) => {
                    let p = table_map(old(self).functions@)[*ident].ptr as int;
                    &&& old(self).roots@[p] == Root::Function(*f)
                    &&& final(self).roots@ == old(self).roots@.update(p, Root::Function(*final(f)))
                },
                None => final(self).roots == old(self).roots,
            },
            final(self).ops == old(self).ops,
            final(self).nodes == old(self).nodes,
            final(self).owners == old(self).owners,
            final(self).functions == old(self).functions,
            final(self).evaluators == old(self).evaluators,
            final(self).bus_table == old(self).bus_table,
    {
        match table_get(&self.functions, ident) {
            None => None,
            Some(l) => {
                proof {
                    let j = choose|j: int| 0 <= j < self.functions@.len() && (#[trigger] self.functions@[j]).0 == *ident;
                    lemma_table_entry(self.functions@, j);
                }
                l.as_function_mut(self)
            },
        }
    }

    /// Queries all function roots, in the order of their names.
    pub fn get_function_nodes(&self) -> (r: Vec<Link<Root>>)
        ensures
            r.len() == self.functions.len(),
            forall|i: int| 0 <= i < self.functions.len() ==> (#[trigger] r@[i]) == self.functions@[i].1,
    {
        table_values(&self.functions)
    }

    /// Inserts an evaluator into the graph, returning an error if the root is not an evaluator,
    /// or if the evaluator already exists (declaration conflict).
    ///
    /// Once the root is an evaluator it takes the name's entry in either case; an earlier entry
    /// whose root is empty is no conflict.
    pub fn insert_evaluator(&mut self, ident: QualifiedIdentifier, node: Link<Root>) -> (r: Result<(), CompileError>)
        requires
            old(self).wf(),
            node.ptr < old(self).roots.len(),
        ensures
            final(self).wf(),
            same_but_tables(*old(self), *final(self)),
            final(self).functions == old(self).functions,
            final(self).bus_table == old(self).bus_table,
            !is_evaluator_root(*old(self), node.ptr) ==> r == Err::<(), CompileError>(CompileError::Failed)
                && final(self).evaluators == old(self).evaluators,
                && final(self).bus_table == old(self).bus_table,
            is_evaluator_root(*old(self), node.ptr) ==> table_map(final(self).evaluators@) == table_map(
                old(self).evaluators@,
            ).insert(ident, node) && (r is Ok <==> may_replace(*old(self), lookup(table_map(old(self).evaluators@), ident)))
                && (r is Err ==> r == Err::<(), CompileError>(CompileError::Failed)),
    {
        let is_evaluator = match &self.roots[node.ptr] {
            Root::Evaluator(_) => true,
            _ => false,
        };
        if !is_evaluator {
            return Err(CompileError::Failed);
        }
        let ghost t0 = self.evaluators@;
        let replaced = table_insert(&mut self.evaluators, ident, node);
        proof {
            lemma_table_bounds(t0, self.evaluators@, ident, node, self.roots.len() as nat);
        }
        match replaced {
            None => Ok(()),
            Some(prev) => {
                proof {
                    let j = choose|j: int| 0 <= j < t0.len() && (#[trigger] t0[j]).0 == ident;
                    lemma_table_entry(t0, j);
                }
                match &self.roots[prev.ptr] {
                    Root::Nil(_) => Ok(()),
                    _ => Err(CompileError::Failed),
                }
            },
        }
    }

    /// Queries a given evaluator as a root.
    pub fn get_evaluator_root(&self, ident: &QualifiedIdentifier) -> (r: Option<Link<Root>>)
        requires
            self.wf(),
        ensures
            r == lookup(table_map(self.evaluators@), *ident),
    {
        table_get(&self.evaluators, ident)
    }

    /// Queries a given evaluator as an [Evaluator].
    pub fn get_evaluator(&self, ident: &QualifiedIdentifier) -> (r: Option<&Evaluator>)
        requires
            self.wf(),
            lookup(table_map(self.evaluators@), *ident) matches Some(l) ==> is_evaluator_root(*self, l.ptr),
        ensures
            r is Some <==> table_map(self.evaluators@).contains_key(*ident),
            r matches Some(e) ==> self.roots@[table_map(self.evaluators@)[*ident].ptr as int] == Root::Evaluator(*e),
    {
        match table_get(&self.evaluators, ident) {
            None => None,
            Some(l) => {
                proof {
                    let j = choose|j: int| 0 <= j < self.evaluators@.len() && (#[trigger] self.evaluators@[j]).0 == *ident;
                    lemma_table_entry(self.evaluators@, j);
                }
                match &self.roots[l.ptr] {
                    Root::Evaluator(e) => Some(e),
                    _ => None,
                }
            },
        }
    }

    /// Queries a given evaluator as an [Evaluator] to modify.
    pub fn get_evaluator_mut(&mut self, ident: &QualifiedIdentifier) -> (r: Option<&mut Evaluator>)
        requires
            old(self).wf(),
            lookup(table_map(old(self).evaluators@), *ident) matches Some(l) ==> is_evaluator_root(*old(self), l.ptr),
        ensures
            r is Some <==> table_map(old(self).evaluators@).contains_key(*ident),
            match r {
                Some(f) => {
                    let p = table_map(old(self).evaluators@)[*ident].ptr as int;
                    &&& old(self).roots@[p] == Root::Evaluator(*f)
                    &&& final(self).roots@ == old(self).roots@.update(p, Root::Evaluator(*final(f)))
                },
                None => final(self).roots == old(self).roots,
            },
            final(self).ops == old(self).ops,
            final(self).nodes == old(self).nodes,
            final(self).owners == old(self).owners,
            final(self).functions == old(self).functions,
            final(self).evaluators == old(self).evaluators,
            final(self).bus_table == old(self).bus_table,
    {
        match table_get(&self.evaluators, ident) {
            None => None,
            Some(l) => {
                proof {
                    let j = choose|j: int| 0 <= j < self.evaluators@.len() && (#[trigger] self.evaluators@[j]).0 == *ident;
                    lemma_table_entry(self.evaluators@, j);
                }
                l.as_evaluator_mut(self)
            },
        }
    }

    /// Queries all evaluator roots, in the order of their names.
    pub fn get_evaluator_nodes(&self) -> (r: Vec<Link<Root>>)
        ensures
            r.len() == self.evaluators.len(),
            forall|i: int| 0 <= i < self.evaluators.len() ==> (#[trigger] r@[i]) == self.evaluators@[i].1,
    {
        table_values(&self.evaluators)
    }

    /// Inserts a bus into the graph, returning an error if the bus already exists (declaration
    /// conflict); the new bus takes the name's entry in either case.
    pub fn insert_bus(&mut self, ident: QualifiedIdentifier, bus: Link<Bus>) -> (r: Result<(), CompileError>)
        requires
            old(self).wf(),
            bus.ptr < old(self).buses.len(),
        ensures
            final(self).wf(),
            same_but_tables(*old(self), *final(self)),
            final(self).functions == old(self).functions,
            final(self).evaluators == old(self).evaluators,
            table_map(final(self).bus_table@) == table_map(old(self).bus_table@).insert(ident, bus),
            r is Ok <==> !table_map(old(self).bus_table@).contains_key(ident),
            r is Err ==> r == Err::<(), CompileError>(CompileError::Failed),
    {
        let ghost t0 = self.bus_table@;
        let replaced = table_insert(&mut self.bus_table, ident, bus);
        proof {
            lemma_table_bounds(t0, self.bus_table@, ident, bus, self.buses.len() as nat);
        }
        match replaced {
            None => Ok(()),
            Some(_) => Err(CompileError::Failed),
        }
    }

    /// Queries a given bus, returning its handle if it exists.
    pub fn get_bus_link(&self, ident: &QualifiedIdentifier) -> (r: Option<Link<Bus>>)
        requires
            self.wf(),
        ensures
            r == lookup(table_map(self.bus_table@), *ident),
    {
        table_get(&self.bus_table, ident)
    }

    /// Queries a given bus, returning a reference to the bus if it exists.
    pub fn get_bus(&self, ident: &QualifiedIdentifier) -> (r: Option<&Bus>)
        requires
            self.wf(),
        ensures
            r is Some <==> table_map(self.bus_table@).contains_key(*ident),
            r matches Some(b) ==> *b == self.buses@[table_map(self.bus_table@)[*ident].ptr as int],
    {
        match table_get(&self.bus_table, ident) {
            None => None,
            Some(l) => {
                proof {
                    let j = choose|j: int| 0 <= j < self.bus_table@.len() && (#[trigger] self.bus_table@[j]).0 == *ident;
                    lemma_table_entry(self.bus_table@, j);
                }
                Some(&self.buses[l.ptr])
            },
        }
    }

    /// Queries a given bus, returning a mutable reference to the bus if it exists.
    pub fn get_bus_mut(&mut self, ident: &QualifiedIdentifier) -> (r: Option<&mut Bus>)
        requires
            old(self).wf(),
        ensures
            r is Some <==> table_map(old(self).bus_table@).contains_key(*ident),
            match r {
                Some(b) => {
                    let p = table_map(old(self).bus_table@)[*ident].ptr as int;
                    &&& old(self).buses@[p] == *b
                    &&& final(self).buses@ == old(self).buses@.update(p, *final(b))
                },
                None => final(self).buses == old(self).buses,
            },
            final(self).ops == old(self).ops,
            final(self).roots == old(self).roots,
            final(self).nodes == old(self).nodes,
            final(self).owners == old(self).owners,
            final(self).functions == old(self).functions,
            final(self).evaluators == old(self).evaluators,
            final(self).bus_table == old(self).bus_table,
    {
        match table_get(&self.bus_table, ident) {
            None => None,
            Some(l) => {
                proof {
                    let j = choose|j: int| 0 <= j < self.bus_table@.len() && (#[trigger] self.bus_table@[j]).0 == *ident;
                    lemma_table_entry(self.bus_table@, j);
                }
                Some(&mut self.buses[l.ptr])
            },
        }
    }

    /// Queries all bus handles, in the order of their names.
    pub fn get_bus_nodes(&self) -> (r: Vec<Link<Bus>>)
        ensures
            r.len() == self.bus_table.len(),
            forall|i: int| 0 <= i < self.bus_table.len() ==> (#[trigger] r@[i]) == self.bus_table@[i].1,
    {
        table_values(&self.bus_table)
    }
}

} // verus!
