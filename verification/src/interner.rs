//! Interning of ops: structurally identical ops (same kind, same operand slots, same span, same
//! value) are made once and shared.
use vstd::prelude::*;

use crate::graph::{extends, rank_above, Graph};
use crate::ir::{
    access_children, op_children, Accessor, Add, Exp, Matrix, MirAccessType, Mul, Op, Sub, Value, Vector,
};
use crate::link::Link;
use crate::value::{
    clone_spanned, mir_value_eq, same_value, ConstantView, MirValue, PeriodicColumnAccess, PublicInputAccess,
    PublicInputTableAccess, SourceSpan, SpannedMirValue, TraceAccess, TraceAccessBinding,
};

verus! {

/// How an interned accessor indexes its indexable, by the slots of its indices.
#[derive(Copy, Clone, PartialEq, Eq, Structural, Debug)]
pub enum AccessKey {
    Default,
    Index { index: usize },
    Matrix { row: usize, col: usize },
}

/// The access key of an access type.
pub open spec fn access_key(a: MirAccessType) -> AccessKey {
    match a {
        MirAccessType::Default => AccessKey::Default,
        MirAccessType::Index(i) => AccessKey::Index { index: i.ptr },
        MirAccessType::Matrix(r, c) => AccessKey::Matrix { row: r.ptr, col: c.ptr },
    }
}

impl AccessKey {
    pub fn from_access_type(access_type: &MirAccessType) -> (r: Self)
        ensures
            r == access_key(*access_type),
    {
        match access_type {
            MirAccessType::Default => AccessKey::Default,
            MirAccessType::Index(index) => AccessKey::Index { index: index.get_ptr() },
            MirAccessType::Matrix(row, col) => AccessKey::Matrix { row: row.get_ptr(), col: col.get_ptr() },
        }
    }
}

/// The key an op is interned under.
#[derive(Debug)]
pub enum OpKey {
    Add { lhs: usize, rhs: usize, span: SourceSpan },
    Sub { lhs: usize, rhs: usize, span: SourceSpan },
    Mul { lhs: usize, rhs: usize, span: SourceSpan },
    Exp { lhs: usize, rhs: usize, span: SourceSpan },
    Vector { elements: Vec<usize>, span: SourceSpan },
    Matrix { rows: Vec<usize>, span: SourceSpan },
    Accessor { indexable: usize, access: AccessKey, offset: usize, span: SourceSpan },
    Value(SpannedMirValue),
}

/// What a value is, for comparing values: constants by content, buses by slot.
pub enum ValueKey {
    Constant(ConstantView),
    TraceAccess(TraceAccess),
    PeriodicColumn(PeriodicColumnAccess),
    PublicInput(PublicInputAccess),
    PublicInputTable(PublicInputTableAccess),
    RandomValue(usize),
    TraceAccessBinding(TraceAccessBinding),
    BusAccess(usize, usize),
    Null,
    Unconstrained,
}

/// The key of a value.
pub open spec fn value_key(v: MirValue) -> ValueKey {
    match v {
        MirValue::Constant(c) => ValueKey::Constant(c.view_of()),
        MirValue::TraceAccess(t) => ValueKey::TraceAccess(t),
        MirValue::PeriodicColumn(p) => ValueKey::PeriodicColumn(p),
        MirValue::PublicInput(p) => ValueKey::PublicInput(p),
        MirValue::PublicInputTable(p) => ValueKey::PublicInputTable(p),
        MirValue::RandomValue(u) => ValueKey::RandomValue(u),
        MirValue::TraceAccessBinding(b) => ValueKey::TraceAccessBinding(b),
        MirValue::BusAccess(b) => ValueKey::BusAccess(b.bus.ptr, b.row_offset),
        MirValue::Null => ValueKey::Null,
        MirValue::Unconstrained => ValueKey::Unconstrained,
    }
}

/// Two values are the same value exactly when their keys are equal.
pub proof fn lemma_value_key(a: MirValue, b: MirValue)
    ensures
        same_value(a, b) == (value_key(a) == value_key(b)),
{
}

/// The mathematical content of a key.
pub enum KeyView {
    Add(usize, usize, SourceSpan),
    Sub(usize, usize, SourceSpan),
    Mul(usize, usize, SourceSpan),
    Exp(usize, usize, SourceSpan),
    Vector(Seq<usize>, SourceSpan),
    Matrix(Seq<usize>, SourceSpan),
    Accessor(usize, AccessKey, usize, SourceSpan),
    Value(ValueKey, SourceSpan),
}

/// The content of a key.
pub open spec fn key_view(k: OpKey) -> KeyView {
    match k {
        OpKey::Add { lhs, rhs, span } => KeyView::Add(lhs, rhs, span),
        OpKey::Sub { lhs, rhs, span } => KeyView::Sub(lhs, rhs, span),
        OpKey::Mul { lhs, rhs, span } => KeyView::Mul(lhs, rhs, span),
        OpKey::Exp { lhs, rhs, span } => KeyView::Exp(lhs, rhs, span),
        OpKey::Vector { elements, span } => KeyView::Vector(elements@, span),
        OpKey::Matrix { rows, span } => KeyView::Matrix(rows@, span),
        OpKey::Accessor { indexable, access, offset, span } => KeyView::Accessor(
            indexable,
            access,
            offset,
            span,
        ),
        OpKey::Value(v) => KeyView::Value(value_key(v.value), v.span),
    }
}

/// The slots of a sequence of handles.
pub open spec fn ptrs(ls: Seq<Link<Op>>) -> Seq<usize> {
    ls.map_values(|l: Link<Op>| l.ptr)
}

/// The key an op would be interned under, for the kinds of ops that are interned.
pub open spec fn op_key(op: Op) -> Option<KeyView> {
    match op {
        Op::Add(x) => Some(KeyView::Add(x.lhs.ptr, x.rhs.ptr, x.span)),
        Op::Sub(x) => Some(KeyView::Sub(x.lhs.ptr, x.rhs.ptr, x.span)),
        Op::Mul(x) => Some(KeyView::Mul(x.lhs.ptr, x.rhs.ptr, x.span)),
        Op::Exp(x) => Some(KeyView::Exp(x.lhs.ptr, x.rhs.ptr, x.span)),
        Op::Vector(x) => Some(KeyView::Vector(ptrs(x.elements@), x.span)),
        Op::Matrix(x) => Some(KeyView::Matrix(ptrs(x.elements@), x.span)),
        Op::Accessor(x) => Some(
            KeyView::Accessor(x.indexable.ptr, access_key(x.access_type), x.offset, x.span),
        ),
        Op::Value(x) => if x.span == x.value.span {
            Some(KeyView::Value(value_key(x.value.value), x.value.span))
        } else {
            None
        },
        _ => None,
    }
}

fn usize_vec_eq(a: &Vec<usize>, b: &Vec<usize>) -> (r: bool)
    ensures
        r == (a@ == b@),
{
    if a.len() != b.len() {
        return false;
    }
    let mut i: usize = 0;
    while i < a.len()
        invariant
            i <= a.len() == b.len(),
            forall|t: int| 0 <= t < i ==> a@[t] == b@[t],
        decreases a.len() - i,
    {
        if a[i] != b[i] {
            return false;
        }
        i = i + 1;
    }
    assert(a@ =~= b@);
    true
}

/// Are the two keys equal?
pub fn key_eq(a: &OpKey, b: &OpKey) -> (r: bool)
    ensures
        r == (key_view(*a) == key_view(*b)),
{
    match (a, b) {
        (OpKey::Add { lhs: l1, rhs: r1, span: s1 }, OpKey::Add { lhs: l2, rhs: r2, span: s2 }) => *l1
            == *l2 && *r1 == *r2 && *s1 == *s2,
        (OpKey::Sub { lhs: l1, rhs: r1, span: s1 }, OpKey::Sub { lhs: l2, rhs: r2, span: s2 }) => *l1
            == *l2 && *r1 == *r2 && *s1 == *s2,
        (OpKey::Mul { lhs: l1, rhs: r1, span: s1 }, OpKey::Mul { lhs: l2, rhs: r2, span: s2 }) => *l1
            == *l2 && *r1 == *r2 && *s1 == *s2,
        (OpKey::Exp { lhs: l1, rhs: r1, span: s1 }, OpKey::Exp { lhs: l2, rhs: r2, span: s2 }) => *l1
            == *l2 && *r1 == *r2 && *s1 == *s2,
        (OpKey::Vector { elements: e1, span: s1 }, OpKey::Vector { elements: e2, span: s2 }) => *s1
            == *s2 && usize_vec_eq(e1, e2),
        (OpKey::Matrix { rows: e1, span: s1 }, OpKey::Matrix { rows: e2, span: s2 }) => *s1 == *s2
            && usize_vec_eq(e1, e2),
        (
            OpKey::Accessor { indexable: i1, access: a1, offset: o1, span: s1 },
            OpKey::Accessor { indexable: i2, access: a2, offset: o2, span: s2 },
        ) => *i1 == *i2 && *a1 == *a2 && *o1 == *o2 && *s1 == *s2,
        (OpKey::Value(v1), OpKey::Value(v2)) => {
            proof {
                lemma_value_key(v1.value, v2.value);
            }
            v1.span == v2.span && mir_value_eq(&v1.value, &v2.value)
        },
        _ => false,
    }
}

/// A small, conservative interner for MIR ops: each key is made into an op once, and the op is
/// reused after. Keys hold the slots of the operands, so interning is sound for ops that are
/// never rewritten in place and whose fields say all they mean.
pub struct OpInterner {
    pub entries: Vec<(OpKey, Link<Op>)>,
}

impl OpInterner {
    /// The op interned under `k`, if any.
    pub open spec fn lookup(&self, k: KeyView) -> Option<Link<Op>> {
        if exists|i: int| 0 <= i < self.entries.len() && key_view(#[trigger] self.entries@[i].0) == k {
            let i = choose|i: int| 0 <= i < self.entries.len() && key_view(#[trigger] self.entries@[i].0) == k;
            Some(self.entries@[i].1)
        } else {
            None
        }
    }

    /// No key is interned twice, and each interned op is live in `g`, has the kind and fields
    /// of its key, and ranks just above its operands.
    pub open spec fn wf(&self, g: Graph) -> bool {
        &&& forall|i: int, j: int|
            0 <= i < j < self.entries.len() ==> key_view(#[trigger] self.entries@[i].0) != key_view(
                #[trigger] self.entries@[j].0,
            )
        &&& forall|i: int|
            0 <= i < self.entries.len() ==> {
                let l = (#[trigger] self.entries@[i]).1;
                &&& l.ptr < g.ops.len()
                &&& op_key(g.ops@[l.ptr as int]) == Some(key_view(self.entries@[i].0))
                &&& g.rank@[l.ptr as int] == rank_above(g.rank@, op_children(g.ops@[l.ptr as int]))
            }
    }

    /// Create a new empty interner.
    pub fn new() -> (r: Self)
        ensures
            r.entries@.len() == 0,
            forall|k: KeyView| r.lookup(k) is None,
    {
        OpInterner { entries: Vec::new() }
    }

    /// Intern a `Add` op with operands `lhs` and `rhs`.
    pub fn intern_add(&mut self, g: &mut Graph, lhs: Link<Op>, rhs: Link<Op>, span: SourceSpan) -> (r: Link<Op>)
        requires
            old(g).wf(),
            old(self).wf(*old(g)),
            lhs.ptr < old(g).ops.len(),
            rhs.ptr < old(g).ops.len(),
        ensures
            interned(*old(self), *final(self), *old(g), *final(g), KeyView::Add(lhs.ptr, rhs.ptr, span), r),
    {
        let key = OpKey::Add { lhs: lhs.get_ptr(), rhs: rhs.get_ptr(), span };
        if let Some(existing) = self.find(&key) {
            proof {
                lemma_lookup_found(*self, *g, key_view(key));
            }
            return existing;
        }
        let ghost g0 = *g;
        let node = Add::create(g, lhs, rhs, span);
        proof {
            lemma_rank_above_prefix(g0.rank@, g.rank@, op_children(g.ops@[node.ptr as int]));
        }
        self.record(key, node, Ghost(g0), Ghost(*g));
        node
    }

    /// Intern a `Sub` op with operands `lhs` and `rhs`.
    pub fn intern_sub(&mut self, g: &mut Graph, lhs: Link<Op>, rhs: Link<Op>, span: SourceSpan) -> (r: Link<Op>)
        requires
            old(g).wf(),
            old(self).wf(*old(g)),
            lhs.ptr < old(g).ops.len(),
            rhs.ptr < old(g).ops.len(),
        ensures
            interned(*old(self), *final(self), *old(g), *final(g), KeyView::Sub(lhs.ptr, rhs.ptr, span), r),
    {
        let key = OpKey::Sub { lhs: lhs.get_ptr(), rhs: rhs.get_ptr(), span };
        if let Some(existing) = self.find(&key) {
            proof {
                lemma_lookup_found(*self, *g, key_view(key));
            }
            return existing;
        }
        let ghost g0 = *g;
        let node = Sub::create(g, lhs, rhs, span);
        proof {
            lemma_rank_above_prefix(g0.rank@, g.rank@, op_children(g.ops@[node.ptr as int]));
        }
        self.record(key, node, Ghost(g0), Ghost(*g));
        node
    }

    /// Intern a `Mul` op with operands `lhs` and `rhs`.
    pub fn intern_mul(&mut self, g: &mut Graph, lhs: Link<Op>, rhs: Link<Op>, span: SourceSpan) -> (r: Link<Op>)
        requires
            old(g).wf(),
            old(self).wf(*old(g)),
            lhs.ptr < old(g).ops.len(),
            rhs.ptr < old(g).ops.len(),
        ensures
            interned(*old(self), *final(self), *old(g), *final(g), KeyView::Mul(lhs.ptr, rhs.ptr, span), r),
    {
        let key = OpKey::Mul { lhs: lhs.get_ptr(), rhs: rhs.get_ptr(), span };
        if let Some(existing) = self.find(&key) {
            proof {
                lemma_lookup_found(*self, *g, key_view(key));
            }
            return existing;
        }
        let ghost g0 = *g;
        let node = Mul::create(g, lhs, rhs, span);
        proof {
            lemma_rank_above_prefix(g0.rank@, g.rank@, op_children(g.ops@[node.ptr as int]));
        }
        self.record(key, node, Ghost(g0), Ghost(*g));
        node
    }

    /// Intern a `Exp` op with operands `lhs` and `rhs`.
    pub fn intern_exp(&mut self, g: &mut Graph, lhs: Link<Op>, rhs: Link<Op>, span: SourceSpan) -> (r: Link<Op>)
        requires
            old(g).wf(),
            old(self).wf(*old(g)),
            lhs.ptr < old(g).ops.len(),
            rhs.ptr < old(g).ops.len(),
        ensures
            interned(*old(self), *final(self), *old(g), *final(g), KeyView::Exp(lhs.ptr, rhs.ptr, span), r),
    {
        let key = OpKey::Exp { lhs: lhs.get_ptr(), rhs: rhs.get_ptr(), span };
        if let Some(existing) = self.find(&key) {
            proof {
                lemma_lookup_found(*self, *g, key_view(key));
            }
            return existing;
        }
        let ghost g0 = *g;
        let node = Exp::create(g, lhs, rhs, span);
        proof {
            lemma_rank_above_prefix(g0.rank@, g.rank@, op_children(g.ops@[node.ptr as int]));
        }
        self.record(key, node, Ghost(g0), Ghost(*g));
        node
    }

    /// Intern a `Vector` op with the given elements.
    pub fn intern_vector(&mut self, g: &mut Graph, elements: Vec<Link<Op>>, span: SourceSpan) -> (r: Link<Op>)
        requires
            old(g).wf(),
            old(self).wf(*old(g)),
            forall|j: int| 0 <= j < elements.len() ==> (#[trigger] elements@[j]).ptr < old(g).ops.len(),
        ensures
            interned(*old(self), *final(self), *old(g), *final(g), KeyView::Vector(ptrs(elements@), span), r),
    {
        let key = OpKey::Vector { elements: ptrs_of(&elements), span };
        if let Some(existing) = self.find(&key) {
            proof {
                lemma_lookup_found(*self, *g, key_view(key));
            }
            return existing;
        }
        let ghost g0 = *g;
        let node = Vector::create(g, elements, span);
        proof {
            lemma_rank_above_prefix(g0.rank@, g.rank@, op_children(g.ops@[node.ptr as int]));
        }
        self.record(key, node, Ghost(g0), Ghost(*g));
        node
    }

    /// Intern a `Matrix` op with the given rows.
    pub fn intern_matrix(&mut self, g: &mut Graph, rows: Vec<Link<Op>>, span: SourceSpan) -> (r: Link<Op>)
        requires
            old(g).wf(),
            old(self).wf(*old(g)),
            forall|j: int| 0 <= j < rows.len() ==> (#[trigger] rows@[j]).ptr < old(g).ops.len(),
        ensures
            interned(*old(self), *final(self), *old(g), *final(g), KeyView::Matrix(ptrs(rows@), span), r),
    {
        let key = OpKey::Matrix { rows: ptrs_of(&rows), span };
        if let Some(existing) = self.find(&key) {
            proof {
                lemma_lookup_found(*self, *g, key_view(key));
            }
            return existing;
        }
        let ghost g0 = *g;
        let node = Matrix::create(g, rows, span);
        proof {
            lemma_rank_above_prefix(g0.rank@, g.rank@, op_children(g.ops@[node.ptr as int]));
        }
        self.record(key, node, Ghost(g0), Ghost(*g));
        node
    }

    /// Intern an `Accessor` op.
    pub fn intern_accessor(
        &mut self,
        g: &mut Graph,
        indexable: Link<Op>,
        access_type: MirAccessType,
        offset: usize,
        span: SourceSpan,
    ) -> (r: Link<Op>)
        requires
            old(g).wf(),
            old(self).wf(*old(g)),
            indexable.ptr < old(g).ops.len(),
            forall|j: int| 0 <= j < access_children(access_type).len() ==> (#[trigger] access_children(access_type)[j]).ptr < old(g).ops.len(),
        ensures
            interned(
                *old(self),
                *final(self),
                *old(g),
                *final(g),
                KeyView::Accessor(indexable.ptr, access_key(access_type), offset, span),
                r,
            ),
    {
        let access = AccessKey::from_access_type(&access_type);
        let key = OpKey::Accessor { indexable: indexable.get_ptr(), access, offset, span };
        if let Some(existing) = self.find(&key) {
            proof {
                lemma_lookup_found(*self, *g, key_view(key));
            }
            return existing;
        }
        let ghost g0 = *g;
        let node = Accessor::create(g, indexable, access_type, offset, span);
        proof {
            lemma_rank_above_prefix(g0.rank@, g.rank@, op_children(g.ops@[node.ptr as int]));
        }
        self.record(key, node, Ghost(g0), Ghost(*g));
        node
    }

    /// Intern a `Value` op holding `value`.
    pub fn intern_value(&mut self, g: &mut Graph, value: SpannedMirValue) -> (r: Link<Op>)
        requires
            old(g).wf(),
            old(self).wf(*old(g)),
        ensures
            interned(
                *old(self),
                *final(self),
                *old(g),
                *final(g),
                KeyView::Value(value_key(value.value), value.span),
                r,
            ),
    {
        let key = OpKey::Value(clone_spanned(&value));
        proof {
            lemma_value_key(value.value, key->Value_0.value);
        }
        if let Some(existing) = self.find(&key) {
            proof {
                lemma_lookup_found(*self, *g, key_view(key));
            }
            return existing;
        }
        let ghost g0 = *g;
        let ghost v = value;
        let span = value.span;
        let node = Value::create(g, value, span);
        proof {
            lemma_value_key(v.value, g.ops@[node.ptr as int]->Value_0.value.value);
            lemma_rank_above_prefix(g0.rank@, g.rank@, op_children(g.ops@[node.ptr as int]));
        }
        self.record(key, node, Ghost(g0), Ghost(*g));
        node
    }

    /// The op interned under `key`, if any.
    fn find(&self, key: &OpKey) -> (r: Option<Link<Op>>)
        requires
            forall|i: int, j: int|
                0 <= i < j < self.entries.len() ==> key_view(#[trigger] self.entries@[i].0) != key_view(
                    #[trigger] self.entries@[j].0,
                ),
        ensures
            r == self.lookup(key_view(*key)),
    {
        let mut i: usize = 0;
        while i < self.entries.len()
            invariant
                i <= self.entries.len(),
                forall|t: int| 0 <= t < i ==> key_view(#[trigger] self.entries@[t].0) != key_view(*key),
                forall|a: int, b: int|
                    0 <= a < b < self.entries.len() ==> key_view(#[trigger] self.entries@[a].0) != key_view(
                        #[trigger] self.entries@[b].0,
                    ),
            decreases self.entries.len() - i,
        {
            if key_eq(&self.entries[i].0, key) {
                let r = self.entries[i].1;
                proof {
                    let k = key_view(*key);
                    let c = choose|c: int| 0 <= c < self.entries.len() && key_view(#[trigger] self.entries@[c].0) == k;
                    if c != i {
                        if c < i {
                            assert(key_view(self.entries@[c].0) != key_view(self.entries@[i as int].0));
                        } else {
                            assert(key_view(self.entries@[i as int].0) != key_view(self.entries@[c].0));
                        }
                    }
                }
                return Some(r);
            }
            i = i + 1;
        }
        None
    }

    /// Record `node`, a new op of `g1` with the key `key`.
    fn record(&mut self, key: OpKey, node: Link<Op>, Ghost(g0): Ghost<Graph>, Ghost(g1): Ghost<Graph>)
        requires
            g0.wf(),
            old(self).wf(g0),
            old(self).lookup(key_view(key)) is None,
            extends(g0, g1),
            node.ptr == g0.ops.len(),
            node.ptr < g1.ops.len(),
            op_key(g1.ops@[node.ptr as int]) == Some(key_view(key)),
            g1.rank@[node.ptr as int] == rank_above(g1.rank@, op_children(g1.ops@[node.ptr as int])),
        ensures
            final(self).wf(g1),
            final(self).lookup(key_view(key)) == Some(node),
            forall|k: KeyView| k != key_view(key) ==> final(self).lookup(k) == old(self).lookup(k),
    {
        let ghost kv = key_view(key);
        self.entries.push((key, node));
        proof {
            let n = old(self).entries.len() as int;
            assert(self.entries@[n].0 == key);
            assert forall|i: int| 0 <= i < n implies key_view(#[trigger] self.entries@[i].0) != kv by {
                assert(self.entries@[i] == old(self).entries@[i]);
            }
            assert forall|i: int| 0 <= i < self.entries.len() implies {
                let l = (#[trigger] self.entries@[i]).1;
                &&& l.ptr < g1.ops.len()
                &&& op_key(g1.ops@[l.ptr as int]) == Some(key_view(self.entries@[i].0))
                &&& g1.rank@[l.ptr as int] == rank_above(g1.rank@, op_children(g1.ops@[l.ptr as int]))
            } by {
                if i < n {
                    assert(self.entries@[i] == old(self).entries@[i]);
                    let l = self.entries@[i].1;
                    lemma_rank_above_prefix(g0.rank@, g1.rank@, op_children(g0.ops@[l.ptr as int]));
                }
            }
            assert forall|k: KeyView| k != kv implies #[trigger] self.lookup(k) == old(self).lookup(k) by {
                if exists|i: int| 0 <= i < old(self).entries.len() && key_view(#[trigger] old(self).entries@[i].0) == k {
                    let i = choose|i: int| 0 <= i < old(self).entries.len() && key_view(#[trigger] old(self).entries@[i].0) == k;
                    assert(self.entries@[i] == old(self).entries@[i]);
                    let c = choose|c: int| 0 <= c < self.entries.len() && key_view(#[trigger] self.entries@[c].0) == k;
                    if c != i {
                        if c < i {
                            assert(key_view(self.entries@[c].0) != key_view(self.entries@[i].0));
                        } else {
                            assert(key_view(self.entries@[i].0) != key_view(self.entries@[c].0));
                        }
                    }
                } else {
                    assert forall|i: int| 0 <= i < self.entries.len() implies key_view(#[trigger] self.entries@[i].0) != k by {
                        if i < n {
                            assert(self.entries@[i] == old(self).entries@[i]);
                        }
                    }
                }
            }
            assert(key_view(self.entries@[n].0) == kv);
            let c = choose|c: int| 0 <= c < self.entries.len() && key_view(#[trigger] self.entries@[c].0) == kv;
            if c != n {
                assert(self.entries@[c] == old(self).entries@[c]);
            }
        }
    }
}

/// `r` is the op interned under `k`: the op interned before (the graph unchanged), or a new op
/// appended to the graph and recorded; every other key keeps its op.
pub open spec fn interned(s0: OpInterner, s1: OpInterner, g0: Graph, g1: Graph, k: KeyView, r: Link<Op>) -> bool {
    &&& s1.wf(g1)
    &&& extends(g0, g1)
    &&& s1.lookup(k) == Some(r)
    &&& r.ptr < g1.ops.len()
    &&& op_key(g1.ops@[r.ptr as int]) == Some(k)
    &&& g1.rank@[r.ptr as int] == rank_above(g1.rank@, op_children(g1.ops@[r.ptr as int]))
    &&& forall|k2: KeyView| k2 != k ==> #[trigger] s1.lookup(k2) == s0.lookup(k2)
    &&& match s0.lookup(k) {
        Some(e) => r == e && g1 == g0 && s1 == s0,
        None => r.ptr == g0.ops.len() && g1.ops.len() == g0.ops.len() + 1,
    }
}

/// The op interned under a key names a slot and has that key.
pub proof fn lemma_lookup_found(s: OpInterner, g: Graph, k: KeyView)
    requires
        s.wf(g),
        s.lookup(k) is Some,
    ensures
        s.lookup(k)->Some_0.ptr < g.ops.len(),
        op_key(g.ops@[s.lookup(k)->Some_0.ptr as int]) == Some(k),
        g.rank@[s.lookup(k)->Some_0.ptr as int] == rank_above(
            g.rank@,
            op_children(g.ops@[s.lookup(k)->Some_0.ptr as int]),
        ),
{
    let i = choose|i: int| 0 <= i < s.entries.len() && key_view(#[trigger] s.entries@[i].0) == k;
    let _ = s.entries@[i];
}

/// The slots of the handles.
fn ptrs_of(ls: &Vec<Link<Op>>) -> (r: Vec<usize>)
    ensures
        r@ == ptrs(ls@),
{
    let mut r: Vec<usize> = Vec::new();
    let mut i: usize = 0;
    while i < ls.len()
        invariant
            i <= ls.len(),
            r@ == ptrs(ls@.take(i as int)),
        decreases ls.len() - i,
    {
        r.push(ls[i].get_ptr());
        i = i + 1;
        assert(r@ =~= ptrs(ls@.take(i as int)));
    }
    assert(ls@.take(i as int) =~= ls@);
    r
}

/// `rank_above` reads only the ranks of the operands.
pub proof fn lemma_rank_above_prefix(r0: Seq<nat>, r1: Seq<nat>, cs: Seq<Link<Op>>)
    requires
        forall|j: int| 0 <= j < cs.len() ==> 0 <= (#[trigger] cs[j]).ptr < r0.len() <= r1.len(),
        forall|i: int| 0 <= i < r0.len() ==> r1[i] == r0[i],
    ensures
        rank_above(r1, cs) == rank_above(r0, cs),
    decreases cs.len(),
{
    if cs.len() > 0 {
        assert forall|j: int| 0 <= j < cs.drop_last().len() implies 0 <= (#[trigger] cs.drop_last()[j]).ptr < r0.len() <= r1.len() by {
            assert(cs.drop_last()[j] == cs[j]);
        }
        lemma_rank_above_prefix(r0, r1, cs.drop_last());
        assert(cs.last() == cs[cs.len() - 1]);
    }
}

/// Interning is idempotent: interning a key a second time gives the op the first time gave,
/// and changes neither the graph nor the interner.
pub proof fn law_intern_idempotent(
    s0: OpInterner,
    s1: OpInterner,
    s2: OpInterner,
    g0: Graph,
    g1: Graph,
    g2: Graph,
    k: KeyView,
    r1: Link<Op>,
    r2: Link<Op>,
)
    requires
        interned(s0, s1, g0, g1, k, r1),
        interned(s1, s2, g1, g2, k, r2),
    ensures
        r2 == r1,
        g2 == g1,
        s2 == s1,
{
}

/// Interning gives equal keys the same op: whatever was interned in between, an op interned
/// under a key is found again under that key.
pub proof fn law_intern_keeps_other_keys(
    s0: OpInterner,
    s1: OpInterner,
    g0: Graph,
    g1: Graph,
    k: KeyView,
    k2: KeyView,
    r: Link<Op>,
)
    requires
        interned(s0, s1, g0, g1, k, r),
        s0.lookup(k2) is Some,
    ensures
        s1.lookup(k2) == s0.lookup(k2),
{
    if k2 != k {
    }
}

} // verus!