//! Evaluation of MIR ops at a random point of the quadratic extension of the field, as used
//! while unrolling: leaves take random elements, kept so that the same leaf takes the same
//! element everywhere.
use vstd::prelude::*;

use rand::rngs::ThreadRng;

use crate::eval::{
    has_key, is_prefix, keys_distinct, lemma_prefix_key, lemma_value_at, random_felt, thread_rng,
    value_at, TableKey, MODULUS,
};
use crate::graph::Graph;
use crate::ir::{op_children, MirAccessType, Op};
use crate::link::Link;
use crate::passes::{trace_access_of, CompileError};
use crate::quad_felt::{
    quad_add, quad_mul, quad_pow, quad_sub, quad_valid, quad_zero, QuadFelt, lemma_mul_valid,
    lemma_pow_valid,
};
use crate::value::{ConstantValue, MirValue, PeriodicColumnAccess, PublicInputAccess, TraceAccess};

verus! {

/// Returns a random [QuadFelt] value: both coordinates drawn uniformly from the base field.
fn rand_quad_felt(rng: &mut ThreadRng) -> (r: QuadFelt)
    ensures
        quad_valid(r),
{
    let a = random_felt(rng);
    let b = random_felt(rng);
    QuadFelt(a, b)
}

/// Every element of the list is valid.
pub open spec fn all_quad_valid(s: Seq<QuadFelt>) -> bool {
    forall|i: int| 0 <= i < s.len() ==> quad_valid(#[trigger] s[i])
}

/// Every element of the table is valid.
pub open spec fn keyed_quad_valid<K>(s: Seq<(K, QuadFelt)>) -> bool {
    forall|i: int| 0 <= i < s.len() ==> quad_valid((#[trigger] s[i]).1)
}

/// Helper function to either query an existing evaluation or create a new random one if the index
/// is out of bounds.
pub fn query_indexed_eval(rng: &mut ThreadRng, evaluations: &mut Vec<QuadFelt>, index: usize) -> (r: QuadFelt)
    requires
        index < usize::MAX,
        all_quad_valid(old(evaluations)@),
    ensures
        final(evaluations)@.len() == (if old(evaluations)@.len() <= index {
            index + 1
        } else {
            old(evaluations)@.len() as int
        }),
        is_prefix(old(evaluations)@, final(evaluations)@),
        all_quad_valid(final(evaluations)@),
        r == final(evaluations)@[index as int],
{
    while evaluations.len() <= index
        invariant
            index < usize::MAX,
            old(evaluations)@.len() <= evaluations@.len(),
            old(evaluations)@.len() <= index ==> evaluations@.len() <= index + 1,
            old(evaluations)@.len() > index ==> evaluations@.len() == old(evaluations)@.len(),
            is_prefix(old(evaluations)@, evaluations@),
            all_quad_valid(evaluations@),
        decreases index + 1 - evaluations@.len(),
    {
        let e = rand_quad_felt(rng);
        evaluations.push(e);
    }
    evaluations[index]
}

/// Helper function to either query an existing evaluation or create a new random one if the element
/// is not present in the map.
pub fn query_mapped_eval<K: TableKey>(rng: &mut ThreadRng, evaluation_map: &mut Vec<(K, QuadFelt)>, element: &K) -> (r: QuadFelt)
    requires
        keys_distinct(old(evaluation_map)@),
        keyed_quad_valid(old(evaluation_map)@),
    ensures
        keys_distinct(final(evaluation_map)@),
        keyed_quad_valid(final(evaluation_map)@),
        has_key(old(evaluation_map)@, *element) ==> final(evaluation_map)@ == old(evaluation_map)@,
        !has_key(old(evaluation_map)@, *element) ==> final(evaluation_map)@ == old(evaluation_map)@.push((*element, r)),
        has_key(final(evaluation_map)@, *element),
        r == value_at(final(evaluation_map)@, *element),
        quad_valid(r),
{
    let mut i: usize = 0;
    while i < evaluation_map.len()
        invariant
            i <= evaluation_map@.len(),
            evaluation_map@ == old(evaluation_map)@,
            keys_distinct(old(evaluation_map)@),
            keyed_quad_valid(old(evaluation_map)@),
            forall|j: int| 0 <= j < i ==> (#[trigger] evaluation_map@[j]).0 != *element,
        decreases evaluation_map@.len() - i,
    {
        if evaluation_map[i].0.same_key(element) {
            let r = evaluation_map[i].1;
            proof {
                lemma_value_at(evaluation_map@, *element, i as int);
            }
            return r;
        }
        i = i + 1;
    }
    let e = rand_quad_felt(rng);
    evaluation_map.push((*element, e));
    proof {
        let s = evaluation_map@;
        let n = s.len() - 1;
        assert(s[n].0 == *element);
        assert forall|a: int, b: int| 0 <= a < b < s.len() implies (#[trigger] s[a]).0 != (#[trigger] s[b]).0 by {
            if b < n {
                assert(s[a] == old(evaluation_map)@[a]);
                assert(s[b] == old(evaluation_map)@[b]);
            } else {
                assert(s[a] == old(evaluation_map)@[a]);
            }
        }
        lemma_value_at(s, *element, n);
    }
    e
}

/// Holds the random inputs taken by leaf nodes, in order to persist them across different node
/// evaluations: the main trace (two elements per column, for the current and the next row:
/// `$main[0], $main[0]', $main[1], ...`), the random values, and the public inputs and periodic
/// columns met.
#[derive(Debug)]
pub struct RandomInputs {
    pub rng: ThreadRng,
    pub main_trace: Vec<QuadFelt>,
    pub rand_values: Vec<QuadFelt>,
    pub public_inputs: Vec<(PublicInputAccess, QuadFelt)>,
    pub periodic_columns: Vec<(PeriodicColumnAccess, QuadFelt)>,
}

impl RandomInputs {
    /// Every element drawn is valid, and no key is drawn for twice.
    pub open spec fn wf(&self) -> bool {
        &&& all_quad_valid(self.main_trace@)
        &&& all_quad_valid(self.rand_values@)
        &&& keyed_quad_valid(self.public_inputs@)
        &&& keyed_quad_valid(self.periodic_columns@)
        &&& keys_distinct(self.public_inputs@)
        &&& keys_distinct(self.periodic_columns@)
    }
}

impl Default for RandomInputs {
    /// Nothing drawn yet, with the generator of the current thread.
    fn default() -> (r: Self)
        ensures
            r.wf(),
            r.main_trace@.len() == 0,
            r.rand_values@.len() == 0,
            r.public_inputs@.len() == 0,
            r.periodic_columns@.len() == 0,
    {
        RandomInputs {
            rng: thread_rng(),
            main_trace: Vec::new(),
            rand_values: Vec::new(),
            public_inputs: Vec::new(),
            periodic_columns: Vec::new(),
        }
    }
}

/// `b` holds every element drawn in `a`, unchanged, and maybe more.
pub open spec fn grows(a: RandomInputs, b: RandomInputs) -> bool {
    &&& is_prefix(a.main_trace@, b.main_trace@)
    &&& is_prefix(a.rand_values@, b.rand_values@)
    &&& is_prefix(a.public_inputs@, b.public_inputs@)
    &&& is_prefix(a.periodic_columns@, b.periodic_columns@)
}

/// The index of a main trace cell in the list of drawn elements.
pub open spec fn cell_index(ta: TraceAccess) -> int {
    ta.column * 2 + ta.row_offset
}

/// The constant an op holds, as an index.
pub open spec fn const_index_of(op: Op) -> Option<usize> {
    match op {
        Op::Value(v) => match v.value.value {
            MirValue::Constant(ConstantValue::Felt(c)) => Some(c as usize),
            _ => None,
        },
        _ => None,
    }
}

/// The public input access an op holds, if it is a public input value.
pub open spec fn public_input_of(op: Op) -> Option<PublicInputAccess> {
    match op {
        Op::Value(v) => match v.value.value {
            MirValue::PublicInput(pi) => Some(pi),
            _ => None,
        },
        _ => None,
    }
}

/// The trace cell the op reads directly: a trace access, or an accessor of one, whose offset is
/// added to the row offset and whose constant index to the column.
pub open spec fn trace_read(g: Graph, p: int) -> Option<TraceAccess> {
    match g.ops@[p] {
        Op::Value(v) => match v.value.value {
            MirValue::TraceAccess(ta) => Some(ta),
            _ => None,
        },
        Op::Accessor(a) => match (a.access_type, trace_access_of(g.ops@[a.indexable.ptr as int])) {
            (MirAccessType::Default, Some(ta)) => Some(
                TraceAccess { row_offset: (ta.row_offset + a.offset) as usize, ..ta },
            ),
            (MirAccessType::Index(i), Some(ta)) => match const_index_of(g.ops@[i.ptr as int]) {
                Some(k) => Some(TraceAccess { column: (ta.column + k) as usize, ..ta }),
                None => None,
            },
            _ => None,
        },
        _ => None,
    }
}

/// The public input element the op reads directly: a public input access, or an accessor of
/// one, whose offset or constant index is added to the element's index.
pub open spec fn public_read(g: Graph, p: int) -> Option<PublicInputAccess> {
    match g.ops@[p] {
        Op::Value(v) => match v.value.value {
            MirValue::PublicInput(pi) => Some(pi),
            _ => None,
        },
        Op::Accessor(a) => match (a.access_type, public_input_of(g.ops@[a.indexable.ptr as int])) {
            (MirAccessType::Default, Some(pi)) => Some(
                PublicInputAccess { index: (pi.index + a.offset) as usize, ..pi },
            ),
            (MirAccessType::Index(i), Some(pi)) => match const_index_of(g.ops@[i.ptr as int]) {
                Some(k) => Some(PublicInputAccess { index: (pi.index + k) as usize, ..pi }),
                None => None,
            },
            _ => None,
        },
        _ => None,
    }
}

/// Is the op a leaf of the evaluation: a value, a parameter, or an accessor that reads a trace
/// cell or public input element directly?
pub open spec fn is_leaf(g: Graph, p: int) -> bool {
    g.ops@[p] is Value || g.ops@[p] is Parameter || trace_read(g, p) is Some || public_read(g, p) is Some
}

/// The op the evaluation of a constraint or accessor goes on to: the constraint's expression;
/// the indexable of an accessor with no offset or index to apply; the element at a constant
/// index of a vector; the element at constant row and column of a matrix (or its row, where
/// the row is not a vector).
pub open spec fn forward(g: Graph, p: int) -> Option<int> {
    match g.ops@[p] {
        Op::Enf(e) => Some(e.expr.ptr as int),
        Op::Accessor(a) => {
            let x = a.indexable.ptr as int;
            match a.access_type {
                MirAccessType::Default => if trace_access_of(g.ops@[x]) is Some || public_input_of(g.ops@[x]) is Some {
                    None
                } else {
                    Some(x)
                },
                MirAccessType::Index(i) => match (const_index_of(g.ops@[i.ptr as int]), g.ops@[x]) {
                    (Some(k), Op::Vector(v)) => if k < v.elements.len() {
                        Some(v.elements@[k as int].ptr as int)
                    } else {
                        None
                    },
                    _ => None,
                },
                MirAccessType::Matrix(r, c) => match (
                    const_index_of(g.ops@[r.ptr as int]),
                    const_index_of(g.ops@[c.ptr as int]),
                    g.ops@[x],
                ) {
                    (Some(ri), Some(ci), Op::Matrix(m)) => if ri < m.elements.len() {
                        let row = m.elements@[ri as int];
                        match g.ops@[row.ptr as int] {
                            Op::Vector(rv) => if ci < rv.elements.len() {
                                Some(rv.elements@[ci as int].ptr as int)
                            } else {
                                None
                            },
                            _ => Some(row.ptr as int),
                        }
                    } else {
                        None
                    },
                    _ => None,
                },
            }
        },
        _ => None,
    }
}

/// Evaluation goes on to an op of lower rank.
pub proof fn lemma_forward_rank(g: Graph, p: int)
    requires
        g.wf(),
        0 <= p < g.ops.len(),
    ensures
        forward(g, p) matches Some(y) ==> 0 <= y < g.ops.len() && g.rank@[y] < g.rank@[p],
{
    match g.ops@[p] {
        Op::Enf(e) => {
            assert(op_children(g.ops@[p])[0] == e.expr);
        },
        Op::Accessor(a) => {
            let x = a.indexable.ptr as int;
            assert(op_children(g.ops@[p])[0] == a.indexable);
            match (a.access_type, g.ops@[x]) {
                (MirAccessType::Index(i), Op::Vector(v)) => {
                    if let Some(k) = const_index_of(g.ops@[i.ptr as int]) {
                        if k < v.elements.len() {
                            assert(op_children(g.ops@[x])[k as int] == v.elements@[k as int]);
                        }
                    }
                },
                (MirAccessType::Matrix(r, c), Op::Matrix(m)) => {
                    if let (Some(ri), Some(ci)) = (const_index_of(g.ops@[r.ptr as int]), const_index_of(g.ops@[c.ptr as int])) {
                        if ri < m.elements.len() {
                            let row = m.elements@[ri as int];
                            assert(op_children(g.ops@[x])[ri as int] == row);
                            if let Op::Vector(rv) = g.ops@[row.ptr as int] {
                                if ci < rv.elements.len() {
                                    assert(op_children(g.ops@[row.ptr as int])[ci as int] == rv.elements@[ci as int]);
                                }
                            }
                        }
                    }
                },
                _ => {},
            }
        },
        _ => {},
    }
}

/// Is the op an arithmetic operation of two operands?
pub open spec fn is_arith(op: Op) -> bool {
    op is Add || op is Sub || op is Mul || op is Exp
}

/// The two operands of an arithmetic operation.
pub open spec fn arith_operands(op: Op) -> (int, int) {
    match op {
        Op::Add(x) => (x.lhs.ptr as int, x.rhs.ptr as int),
        Op::Sub(x) => (x.lhs.ptr as int, x.rhs.ptr as int),
        Op::Mul(x) => (x.lhs.ptr as int, x.rhs.ptr as int),
        Op::Exp(x) => (x.lhs.ptr as int, x.rhs.ptr as int),
        _ => (0, 0),
    }
}

/// The operands of an arithmetic operation rank below it.
pub proof fn lemma_arith_rank(g: Graph, p: int)
    requires
        g.wf(),
        0 <= p < g.ops.len(),
        is_arith(g.ops@[p]),
    ensures
        0 <= arith_operands(g.ops@[p]).0 < g.ops.len(),
        0 <= arith_operands(g.ops@[p]).1 < g.ops.len(),
        g.rank@[arith_operands(g.ops@[p]).0] < g.rank@[p],
        g.rank@[arith_operands(g.ops@[p]).1] < g.rank@[p],
{
    let op = g.ops@[p];
    assert(op_children(op)[0].ptr as int == arith_operands(op).0);
    assert(op_children(op)[1].ptr as int == arith_operands(op).1);
}

/// The leaf is one evaluation handles: a trace cell of the main trace, a public input element,
/// a random value, a periodic column, a constant, or a parameter.
pub open spec fn leaf_ok(g: Graph, p: int) -> bool {
    match trace_read(g, p) {
        Some(ta) => ta.segment == 0,
        None => public_read(g, p) is Some || g.ops@[p] is Parameter || match g.ops@[p] {
            Op::Value(v) => match v.value.value {
                MirValue::RandomValue(_) | MirValue::PeriodicColumn(_) | MirValue::Constant(ConstantValue::Felt(_)) => true,
                _ => false,
            },
            _ => false,
        },
    }
}

/// The op is one evaluation rejects at once, drawing nothing: no arithmetic, constraint,
/// accessor or parameter, and no value it reads (a felt constant, a main-trace access, a random
/// value, a public input or a periodic column).
pub open spec fn rejected_outright(g: Graph, p: int) -> bool {
    match g.ops@[p] {
        Op::Add(_) | Op::Sub(_) | Op::Mul(_) | Op::Exp(_) | Op::Enf(_) | Op::Accessor(_) | Op::Parameter(_) => false,
        Op::Value(v) => match v.value.value {
            MirValue::Constant(ConstantValue::Felt(_)) | MirValue::RandomValue(_) | MirValue::PublicInput(_)
            | MirValue::PeriodicColumn(_) => false,
            MirValue::TraceAccess(ta) => ta.segment != 0,
            _ => true,
        },
        _ => true,
    }
}

/// Evaluation of the op succeeds, but maybe for an exponent that evaluates outside the base
/// field: it is built from constraints, arithmetic, and accessors and leaves that evaluation
/// handles.
pub open spec fn supported(g: Graph, p: int) -> bool
    decreases g.rank@[p],
    when g.wf() && 0 <= p < g.ops.len()
{
    if is_arith(g.ops@[p]) {
        proof {
            lemma_arith_rank(g, p);
        }
        supported(g, arith_operands(g.ops@[p]).0) && supported(g, arith_operands(g.ops@[p]).1)
    } else if is_leaf(g, p) {
        leaf_ok(g, p)
    } else {
        proof {
            lemma_forward_rank(g, p);
        }
        match forward(g, p) {
            Some(y) => supported(g, y),
            None => false,
        }
    }
}

/// The op evaluates to an element of the base field whatever is drawn: it is built from
/// constants by arithmetic and accessors.
pub open spec fn base_valued(g: Graph, p: int) -> bool
    decreases g.rank@[p],
    when g.wf() && 0 <= p < g.ops.len()
{
    if is_arith(g.ops@[p]) {
        proof {
            lemma_arith_rank(g, p);
        }
        base_valued(g, arith_operands(g.ops@[p]).0) && base_valued(g, arith_operands(g.ops@[p]).1)
    } else if is_leaf(g, p) {
        const_index_of(g.ops@[p]) is Some
    } else {
        proof {
            lemma_forward_rank(g, p);
        }
        match forward(g, p) {
            Some(y) => base_valued(g, y),
            None => false,
        }
    }
}

/// Evaluation of the op succeeds whatever is drawn: it is supported, and every exponent it
/// reaches is base-valued.
pub open spec fn owed(g: Graph, p: int) -> bool
    decreases g.rank@[p],
    when g.wf() && 0 <= p < g.ops.len()
{
    if is_arith(g.ops@[p]) {
        proof {
            lemma_arith_rank(g, p);
        }
        &&& owed(g, arith_operands(g.ops@[p]).0)
        &&& owed(g, arith_operands(g.ops@[p]).1)
        &&& g.ops@[p] is Exp ==> base_valued(g, arith_operands(g.ops@[p]).1)
    } else if is_leaf(g, p) {
        leaf_ok(g, p)
    } else {
        proof {
            lemma_forward_rank(g, p);
        }
        match forward(g, p) {
            Some(y) => owed(g, y),
            None => false,
        }
    }
}

/// The evaluation of the op reaches no parameter: it is a function of the elements drawn.
pub open spec fn determined(g: Graph, p: int) -> bool
    decreases g.rank@[p],
    when g.wf() && 0 <= p < g.ops.len()
{
    if is_arith(g.ops@[p]) {
        proof {
            lemma_arith_rank(g, p);
        }
        determined(g, arith_operands(g.ops@[p]).0) && determined(g, arith_operands(g.ops@[p]).1)
    } else if is_leaf(g, p) {
        !(g.ops@[p] is Parameter)
    } else {
        proof {
            lemma_forward_rank(g, p);
        }
        match forward(g, p) {
            Some(y) => determined(g, y),
            None => true,
        }
    }
}

/// The index arithmetic of the leaf fits in a `usize`, one more included.
pub open spec fn leaf_fits(g: Graph, p: int) -> bool {
    &&& match g.ops@[p] {
        Op::Value(v) => match v.value.value {
            MirValue::RandomValue(u) => u < usize::MAX,
            _ => true,
        },
        Op::Accessor(a) => match (a.access_type, trace_access_of(g.ops@[a.indexable.ptr as int])) {
            (MirAccessType::Default, Some(ta)) => ta.row_offset + a.offset <= usize::MAX,
            (MirAccessType::Index(i), Some(ta)) => match const_index_of(g.ops@[i.ptr as int]) {
                Some(k) => ta.column + k <= usize::MAX,
                None => true,
            },
            _ => match (a.access_type, public_input_of(g.ops@[a.indexable.ptr as int])) {
                (MirAccessType::Default, Some(pi)) => pi.index + a.offset <= usize::MAX,
                (MirAccessType::Index(i), Some(pi)) => match const_index_of(g.ops@[i.ptr as int]) {
                    Some(k) => pi.index + k <= usize::MAX,
                    None => true,
                },
                _ => true,
            },
        },
        _ => true,
    }
    &&& trace_read(g, p) matches Some(ta) ==> cell_index(ta) < usize::MAX
}

/// The index arithmetic of the whole evaluation fits in a `usize`.
pub open spec fn fits(g: Graph, p: int) -> bool
    decreases g.rank@[p],
    when g.wf() && 0 <= p < g.ops.len()
{
    if is_arith(g.ops@[p]) {
        proof {
            lemma_arith_rank(g, p);
        }
        fits(g, arith_operands(g.ops@[p]).0) && fits(g, arith_operands(g.ops@[p]).1)
    } else if is_leaf(g, p) {
        leaf_fits(g, p)
    } else {
        proof {
            lemma_forward_rank(g, p);
        }
        match forward(g, p) {
            Some(y) => fits(g, y),
            None => true,
        }
    }
}

/// Elements have been drawn for the leaf.
pub open spec fn leaf_covered(t: RandomInputs, g: Graph, p: int) -> bool {
    match trace_read(g, p) {
        Some(ta) => ta.segment == 0 ==> cell_index(ta) < t.main_trace@.len(),
        None => match public_read(g, p) {
            Some(pi) => has_key(t.public_inputs@, pi),
            None => match g.ops@[p] {
                Op::Value(v) => match v.value.value {
                    MirValue::RandomValue(u) => u < t.rand_values@.len(),
                    MirValue::PeriodicColumn(k) => has_key(t.periodic_columns@, k),
                    _ => true,
                },
                _ => true,
            },
        },
    }
}

/// The element drawn for the leaf, or the constant it holds.
pub open spec fn leaf_value(t: RandomInputs, g: Graph, p: int) -> QuadFelt {
    match trace_read(g, p) {
        Some(ta) => if ta.segment == 0 {
            t.main_trace@[cell_index(ta)]
        } else {
            quad_zero()
        },
        None => match public_read(g, p) {
            Some(pi) => value_at(t.public_inputs@, pi),
            None => match g.ops@[p] {
                Op::Value(v) => match v.value.value {
                    MirValue::RandomValue(u) => t.rand_values@[u as int],
                    MirValue::PeriodicColumn(k) => value_at(t.periodic_columns@, k),
                    MirValue::Constant(ConstantValue::Felt(c)) => QuadFelt((c % MODULUS) as u64, 0),
                    _ => quad_zero(),
                },
                _ => quad_zero(),
            },
        },
    }
}

/// Elements have been drawn for every leaf the evaluation reaches.
pub open spec fn covered(t: RandomInputs, g: Graph, p: int) -> bool
    decreases g.rank@[p],
    when g.wf() && 0 <= p < g.ops.len()
{
    if is_arith(g.ops@[p]) {
        proof {
            lemma_arith_rank(g, p);
        }
        covered(t, g, arith_operands(g.ops@[p]).0) && covered(t, g, arith_operands(g.ops@[p]).1)
    } else if is_leaf(g, p) {
        leaf_covered(t, g, p)
    } else {
        proof {
            lemma_forward_rank(g, p);
        }
        match forward(g, p) {
            Some(y) => covered(t, g, y),
            None => true,
        }
    }
}

/// Every power that the evaluation of the op reaches has, with the elements drawn in `t`, an
/// exponent in the base field.
pub open spec fn exponents_ok(t: RandomInputs, g: Graph, p: int) -> bool
    decreases g.rank@[p],
    when g.wf() && 0 <= p < g.ops.len()
{
    if is_arith(g.ops@[p]) {
        proof {
            lemma_arith_rank(g, p);
        }
        &&& exponents_ok(t, g, arith_operands(g.ops@[p]).0)
        &&& exponents_ok(t, g, arith_operands(g.ops@[p]).1)
        &&& g.ops@[p] is Exp ==> eval_value(t, g, arith_operands(g.ops@[p]).1).1 == 0
    } else if is_leaf(g, p) {
        true
    } else {
        proof {
            lemma_forward_rank(g, p);
        }
        match forward(g, p) {
            Some(y) => exponents_ok(t, g, y),
            None => true,
        }
    }
}

/// Drawing more elements changes no exponent's membership in the base field where the
/// evaluation's leaves all had elements drawn.
proof fn lemma_exponents_stable(t1: RandomInputs, t2: RandomInputs, g: Graph, p: int)
    requires
        g.wf(),
        0 <= p < g.ops.len(),
        t1.wf(),
        t2.wf(),
        grows(t1, t2),
        covered(t1, g, p),
    ensures
        exponents_ok(t2, g, p) == exponents_ok(t1, g, p),
    decreases g.rank@[p],
{
    if is_arith(g.ops@[p]) {
        lemma_arith_rank(g, p);
        lemma_exponents_stable(t1, t2, g, arith_operands(g.ops@[p]).0);
        lemma_exponents_stable(t1, t2, g, arith_operands(g.ops@[p]).1);
        law_eval_stable(t1, t2, g, arith_operands(g.ops@[p]).1);
    } else if !is_leaf(g, p) {
        lemma_forward_rank(g, p);
        if let Some(y) = forward(g, p) {
            lemma_exponents_stable(t1, t2, g, y);
        }
    }
}

/// The arithmetic operation on the evaluations of its operands; a power by the integer the
/// exponent's first coordinate stands for.
pub open spec fn arith_value(op: Op, a: QuadFelt, b: QuadFelt) -> QuadFelt {
    match op {
        Op::Add(_) => quad_add(a, b),
        Op::Sub(_) => quad_sub(a, b),
        Op::Mul(_) => quad_mul(a, b),
        _ => quad_pow(a, b.0 as nat),
    }
}

/// The evaluation of the op with the elements drawn in `t`.
pub open spec fn eval_value(t: RandomInputs, g: Graph, p: int) -> QuadFelt
    decreases g.rank@[p],
    when g.wf() && 0 <= p < g.ops.len()
{
    if is_arith(g.ops@[p]) {
        proof {
            lemma_arith_rank(g, p);
        }
        arith_value(
            g.ops@[p],
            eval_value(t, g, arith_operands(g.ops@[p]).0),
            eval_value(t, g, arith_operands(g.ops@[p]).1),
        )
    } else if is_leaf(g, p) {
        leaf_value(t, g, p)
    } else {
        proof {
            lemma_forward_rank(g, p);
        }
        match forward(g, p) {
            Some(y) => eval_value(t, g, y),
            None => quad_zero(),
        }
    }
}

/// Evaluation is compositional: a sum, difference, product or power evaluates to the sum,
/// difference, product or power of what its operands evaluate to; a constraint to what its
/// expression evaluates to; two value ops holding the same value (a trace access, public input,
/// random value or periodic column) evaluate alike, and a felt constant to itself.
pub proof fn law_eval_compositional(t: RandomInputs, g: Graph, p: int, q: int)
    requires
        g.wf(),
        0 <= p < g.ops.len(),
        0 <= q < g.ops.len(),
    ensures
        g.ops@[p] matches Op::Add(x) ==> eval_value(t, g, p) == quad_add(
            eval_value(t, g, x.lhs.ptr as int),
            eval_value(t, g, x.rhs.ptr as int),
        ),
        g.ops@[p] matches Op::Sub(x) ==> eval_value(t, g, p) == quad_sub(
            eval_value(t, g, x.lhs.ptr as int),
            eval_value(t, g, x.rhs.ptr as int),
        ),
        g.ops@[p] matches Op::Mul(x) ==> eval_value(t, g, p) == quad_mul(
            eval_value(t, g, x.lhs.ptr as int),
            eval_value(t, g, x.rhs.ptr as int),
        ),
        g.ops@[p] matches Op::Exp(x) ==> eval_value(t, g, p) == quad_pow(
            eval_value(t, g, x.lhs.ptr as int),
            eval_value(t, g, x.rhs.ptr as int).0 as nat,
        ),
        g.ops@[p] matches Op::Enf(e) ==> eval_value(t, g, p) == eval_value(t, g, e.expr.ptr as int),
        (g.ops@[p] matches Op::Value(x) && g.ops@[q] matches Op::Value(y) && x.value.value == y.value.value)
            ==> eval_value(t, g, p) == eval_value(t, g, q),
{
    reveal_with_fuel(eval_value, 1);
    if is_arith(g.ops@[p]) {
        lemma_arith_rank(g, p);
        assert(eval_value(t, g, p) == arith_value(
            g.ops@[p],
            eval_value(t, g, arith_operands(g.ops@[p]).0),
            eval_value(t, g, arith_operands(g.ops@[p]).1),
        ));
    }
    if g.ops@[p] is Enf {
        lemma_forward_rank(g, p);
        assert(!is_leaf(g, p));
        assert(eval_value(t, g, p) == eval_value(t, g, forward(g, p)->Some_0));
    }
    if g.ops@[p] is Value && g.ops@[q] is Value {
        assert(eval_value(t, g, p) == leaf_value(t, g, p));
        assert(eval_value(t, g, q) == leaf_value(t, g, q));
    }
}

/// An accessor at a constant row `rc` and column `cc` of a matrix whose row `rc` is a vector
/// evaluates as the element at position `cc` of that row.
pub proof fn law_eval_matrix_element(
    t: RandomInputs,
    g: Graph,
    p: int,
    x: int,
    rl: Link<Op>,
    cl: Link<Op>,
    rc: u64,
    cc: u64,
    row: int,
    e: int,
)
    requires
        g.wf(),
        0 <= p < g.ops.len(),
        g.ops@[p] matches Op::Accessor(a) && a.indexable.ptr == x && a.access_type == MirAccessType::Matrix(rl, cl),
        g.ops@[rl.ptr as int] matches Op::Value(v) && v.value.value == MirValue::Constant(ConstantValue::Felt(rc)),
        g.ops@[cl.ptr as int] matches Op::Value(v) && v.value.value == MirValue::Constant(ConstantValue::Felt(cc)),
        g.ops@[x] matches Op::Matrix(m) && (rc as usize) < m.elements.len() && m.elements@[(rc as usize) as int].ptr == row,
        g.ops@[row] matches Op::Vector(v) && (cc as usize) < v.elements.len() && v.elements@[(cc as usize) as int].ptr == e,
    ensures
        eval_value(t, g, p) == eval_value(t, g, e),
{
    assert(!is_arith(g.ops@[p]));
    assert(!is_leaf(g, p));
    assert(forward(g, p) == Some(e));
    lemma_forward_rank(g, p);
}

/// An accessor at a constant index `ic` of a vector evaluates as the element at position `ic`.
pub proof fn law_eval_vector_element(t: RandomInputs, g: Graph, p: int, x: int, il: Link<Op>, ic: u64, e: int)
    requires
        g.wf(),
        0 <= p < g.ops.len(),
        g.ops@[p] matches Op::Accessor(a) && a.indexable.ptr == x && a.access_type == MirAccessType::Index(il),
        g.ops@[il.ptr as int] matches Op::Value(v) && v.value.value == MirValue::Constant(ConstantValue::Felt(ic)),
        g.ops@[x] matches Op::Vector(v) && (ic as usize) < v.elements.len() && v.elements@[(ic as usize) as int].ptr == e,
    ensures
        eval_value(t, g, p) == eval_value(t, g, e),
{
    assert(!is_arith(g.ops@[p]));
    assert(!is_leaf(g, p));
    assert(forward(g, p) == Some(e));
    lemma_forward_rank(g, p);
}

/// Drawing more elements changes no evaluation whose leaves all had elements drawn: what was
/// drawn for a leaf is kept, so the same leaf takes the same element everywhere.
pub proof fn law_eval_stable(t1: RandomInputs, t2: RandomInputs, g: Graph, p: int)
    requires
        g.wf(),
        0 <= p < g.ops.len(),
        t1.wf(),
        t2.wf(),
        grows(t1, t2),
        covered(t1, g, p),
    ensures
        covered(t2, g, p),
        eval_value(t2, g, p) == eval_value(t1, g, p),
    decreases g.rank@[p],
{
    if is_arith(g.ops@[p]) {
        lemma_arith_rank(g, p);
        law_eval_stable(t1, t2, g, arith_operands(g.ops@[p]).0);
        law_eval_stable(t1, t2, g, arith_operands(g.ops@[p]).1);
    } else if is_leaf(g, p) {
        if trace_read(g, p) is None {
            match public_read(g, p) {
                Some(pi) => lemma_prefix_key(t1.public_inputs@, t2.public_inputs@, pi),
                None => match g.ops@[p] {
                    Op::Value(v) => match v.value.value {
                        MirValue::PeriodicColumn(k) => lemma_prefix_key(t1.periodic_columns@, t2.periodic_columns@, k),
                        _ => {},
                    },
                    _ => {},
                },
            }
        }
    } else {
        lemma_forward_rank(g, p);
        if let Some(y) = forward(g, p) {
            law_eval_stable(t1, t2, g, y);
        }
    }
}

/// Arithmetic on elements gives elements; on elements of the base field, elements of the base
/// field.
proof fn lemma_arith_value(op: Op, a: QuadFelt, b: QuadFelt)
    requires
        is_arith(op),
        quad_valid(a),
        quad_valid(b),
    ensures
        quad_valid(arith_value(op, a, b)),
        a.1 == 0 && b.1 == 0 ==> arith_value(op, a, b).1 == 0,
{
    let m = MODULUS as int;
    vstd::arithmetic::div_mod::lemma_mod_bound(a.0 + b.0, m);
    vstd::arithmetic::div_mod::lemma_mod_bound(a.1 + b.1, m);
    vstd::arithmetic::div_mod::lemma_mod_bound(a.0 - b.0, m);
    vstd::arithmetic::div_mod::lemma_mod_bound(a.1 - b.1, m);
    lemma_mul_valid(a, b);
    lemma_pow_valid(a, b.0 as nat);
    if a.1 == 0 && b.1 == 0 {
        assert(a.0 * 0 + 0 * b.0 + 0 * 0 == 0) by (nonlinear_arith);
        lemma_pow_base(a, b.0 as nat);
    }
}

/// A power of an element of the base field is in the base field.
proof fn lemma_pow_base(a: QuadFelt, n: nat)
    requires
        a.1 == 0,
    ensures
        quad_pow(a, n).1 == 0,
    decreases n,
{
    if n > 0 {
        lemma_pow_base(a, (n - 1) as nat);
        let q = quad_pow(a, (n - 1) as nat);
        assert(a.0 * q.1 + a.1 * q.0 + a.1 * q.1 == 0) by (nonlinear_arith)
            requires
                a.1 == 0,
                q.1 == 0,
        ;
    }
}

fn is_arith_op(op: &Op) -> (r: bool)
    ensures
        r == is_arith(*op),
{
    match op {
        Op::Add(_) | Op::Sub(_) | Op::Mul(_) | Op::Exp(_) => true,
        _ => false,
    }
}

fn arith_links(op: &Op) -> (r: (Link<Op>, Link<Op>))
    requires
        is_arith(*op),
    ensures
        r.0.ptr as int == arith_operands(*op).0,
        r.1.ptr as int == arith_operands(*op).1,
{
    match op {
        Op::Add(x) => (x.lhs, x.rhs),
        Op::Sub(x) => (x.lhs, x.rhs),
        Op::Mul(x) => (x.lhs, x.rhs),
        Op::Exp(x) => (x.lhs, x.rhs),
        _ => (Link::new(0), Link::new(0)),
    }
}

impl RandomInputs {
    /// The constant the op holds, as an index; fails where it holds none.
    fn const_index(&self, g: &Graph, node: &Link<Op>) -> (r: Result<usize, CompileError>)
        requires
            node.ptr < g.ops.len(),
        ensures
            match const_index_of(g.ops@[node.ptr as int]) {
                Some(k) => r == Ok::<usize, CompileError>(k),
                None => r is Err,
            },
    {
        if let Op::Value(value) = &g.ops[node.ptr] {
            if let MirValue::Constant(ConstantValue::Felt(c)) = &value.value.value {
                return Ok(*c as usize);
            }
        }
        Err(CompileError::Failed)
    }

    /// The element drawn for a cell of the main trace; fails for any other segment.
    fn eval_trace_access(&mut self, trace_access: TraceAccess) -> (r: Result<QuadFelt, CompileError>)
        requires
            old(self).wf(),
            cell_index(trace_access) < usize::MAX,
        ensures
            final(self).wf(),
            grows(*old(self), *final(self)),
            r is Ok <==> trace_access.segment == 0,
            r is Err ==> *final(self) == *old(self),
            r matches Ok(v) ==> cell_index(trace_access) < final(self).main_trace@.len() && v
                == final(self).main_trace@[cell_index(trace_access)] && quad_valid(v),
    {
        let index = trace_access.column * 2 + trace_access.row_offset;
        if trace_access.segment == 0 {
            Ok(query_indexed_eval(&mut self.rng, &mut self.main_trace, index))
        } else {
            Err(CompileError::Failed)
        }
    }

    /// Evaluates a given MIR node at a random point.
    ///
    /// Leaves take the elements drawn for them, drawing new ones where none were drawn yet; a
    /// parameter takes a fresh random element each time (parameters of different loops cannot
    /// be told apart). A power fails where its exponent is not in the base field.
    pub fn eval(&mut self, g: &Graph, op: Link<Op>) -> (r: Result<QuadFelt, CompileError>)
        requires
            g.wf(),
            op.ptr < g.ops.len(),
            old(self).wf(),
            fits(*g, op.ptr as int),
        ensures
            final(self).wf(),
            grows(*old(self), *final(self)),
            !supported(*g, op.ptr as int) ==> r is Err,
            owed(*g, op.ptr as int) ==> r is Ok,
            r matches Ok(v) ==> supported(*g, op.ptr as int) && quad_valid(v) && covered(*final(self), *g, op.ptr as int),
            r matches Ok(v) ==> (base_valued(*g, op.ptr as int) ==> v.1 == 0),
            r matches Ok(v) ==> (determined(*g, op.ptr as int) ==> v == eval_value(*final(self), *g, op.ptr as int)),
            supported(*g, op.ptr as int) && determined(*g, op.ptr as int) ==> (r is Ok <==> exponents_ok(
                *final(self),
                *g,
                op.ptr as int,
            )),
            rejected_outright(*g, op.ptr as int) ==> r is Err && *final(self) == *old(self),
        decreases g.rank@[op.ptr as int],
    {
        let ghost p = op.ptr as int;
        let node = &g.ops[op.ptr];
        proof {
            lemma_forward_rank(*g, p);
        }
        if is_arith_op(node) {
            let (l, rl) = arith_links(node);
            proof {
                lemma_arith_rank(*g, p);
            }
            let lhs = match self.eval(g, l) {
                Ok(v) => v,
                Err(e) => return Err(e),
            };
            let ghost mid = *self;
            let rhs = match self.eval(g, rl) {
                Ok(v) => v,
                Err(e) => return Err(e),
            };
            proof {
                law_eval_stable(mid, *self, *g, l.ptr as int);
                lemma_exponents_stable(mid, *self, *g, l.ptr as int);
                lemma_arith_value(*node, lhs, rhs);
            }
            return match node {
                Op::Add(_) => Ok(lhs.add(rhs)),
                Op::Sub(_) => Ok(lhs.sub(rhs)),
                Op::Mul(_) => Ok(lhs.mul(rhs)),
                _ => if rhs.1 != 0 {
                    // The power is not an integer: the exponent is not in the base field.
                    Err(CompileError::Failed)
                } else {
                    Ok(lhs.exp(rhs.0))
                },
            };
        }
        match node {
            Op::Enf(e) => self.eval(g, e.expr),
            Op::Parameter(_) => Ok(rand_quad_felt(&mut self.rng)),
            Op::Value(v) => match &v.value.value {
                MirValue::Constant(ConstantValue::Felt(c)) => Ok(QuadFelt(felt_of(*c), 0)),
                MirValue::TraceAccess(trace_access) => self.eval_trace_access(*trace_access),
                MirValue::RandomValue(u) => Ok(query_indexed_eval(&mut self.rng, &mut self.rand_values, *u)),
                MirValue::PublicInput(pi) => Ok(query_mapped_eval(&mut self.rng, &mut self.public_inputs, pi)),
                MirValue::PeriodicColumn(pc) => Ok(query_mapped_eval(&mut self.rng, &mut self.periodic_columns, pc)),
                _ => Err(CompileError::Failed),
            },
            Op::Accessor(a) => {
                proof {
                    assert(op_children(*node)[0] == a.indexable);
                }
                match &a.access_type {
                    MirAccessType::Default => {
                        if let Op::Value(v) = &g.ops[a.indexable.ptr] {
                            match &v.value.value {
                                MirValue::TraceAccess(trace_access) => {
                                    let shifted = TraceAccess {
                                        segment: trace_access.segment,
                                        column: trace_access.column,
                                        row_offset: trace_access.row_offset + a.offset,
                                    };
                                    return self.eval_trace_access(shifted);
                                },
                                MirValue::PublicInput(pi) => {
                                    let shifted = PublicInputAccess { name: pi.name, index: pi.index + a.offset };
                                    return Ok(query_mapped_eval(&mut self.rng, &mut self.public_inputs, &shifted));
                                },
                                _ => {},
                            }
                        }
                        self.eval(g, a.indexable)
                    },
                    MirAccessType::Index(index) => {
                        proof {
                            assert(op_children(*node)[1] == *index);
                        }
                        let k = match self.const_index(g, index) {
                            Ok(k) => k,
                            Err(e) => return Err(e),
                        };
                        match &g.ops[a.indexable.ptr] {
                            Op::Vector(vector) => {
                                if k < vector.elements.len() {
                                    self.eval(g, vector.elements[k])
                                } else {
                                    Err(CompileError::Failed)
                                }
                            },
                            Op::Value(v) => match &v.value.value {
                                MirValue::PublicInput(pi) => {
                                    let shifted = PublicInputAccess { name: pi.name, index: pi.index + k };
                                    Ok(query_mapped_eval(&mut self.rng, &mut self.public_inputs, &shifted))
                                },
                                MirValue::TraceAccess(trace_access) => {
                                    let shifted = TraceAccess {
                                        segment: trace_access.segment,
                                        column: trace_access.column + k,
                                        row_offset: trace_access.row_offset,
                                    };
                                    self.eval_trace_access(shifted)
                                },
                                _ => Err(CompileError::Failed),
                            },
                            _ => Err(CompileError::Failed),
                        }
                    },
                    MirAccessType::Matrix(row, col) => {
                        proof {
                            assert(op_children(*node)[1] == *row);
                            assert(op_children(*node)[2] == *col);
                        }
                        let row_index = match self.const_index(g, row) {
                            Ok(k) => k,
                            Err(e) => return Err(e),
                        };
                        let col_index = match self.const_index(g, col) {
                            Ok(k) => k,
                            Err(e) => return Err(e),
                        };
                        match &g.ops[a.indexable.ptr] {
                            Op::Matrix(matrix) => {
                                if row_index < matrix.elements.len() {
                                    let row_node = matrix.elements[row_index];
                                    proof {
                                        assert(op_children(g.ops@[a.indexable.ptr as int])[row_index as int] == row_node);
                                    }
                                    if let Op::Vector(row_vec) = &g.ops[row_node.ptr] {
                                        if col_index < row_vec.elements.len() {
                                            self.eval(g, row_vec.elements[col_index])
                                        } else {
                                            Err(CompileError::Failed)
                                        }
                                    } else {
                                        self.eval(g, row_node)
                                    }
                                } else {
                                    Err(CompileError::Failed)
                                }
                            },
                            _ => Err(CompileError::Failed),
                        }
                    },
                }
            },
            _ => Err(CompileError::Failed),
        }
    }
}

/// The element `c` of the base field: `c` reduced.
fn felt_of(c: u64) -> (r: u64)
    ensures
        r == c % MODULUS,
{
    crate::eval::felt_new(c)
}

} // verus!
