//! Evaluation of MIR ops at random points of the base field of the STARK, modulo
//! `2^64 - 2^32 + 1`: leaves take random values, kept so that the same leaf takes the same value
//! everywhere, and arithmetic is the field's.
use vstd::prelude::*;

use rand::distr::Uniform;
use rand::rngs::ThreadRng;
use rand::Rng;
use std::marker::PhantomData;

use crate::graph::Graph;
use crate::ir::{op_children, BusOpKind, Op};
use crate::link::Link;
use crate::passes::{trace_access_of, CompileError};
use crate::utils::hash;
use crate::value::{
    ConstantValue, MirValue, PeriodicColumnAccess, PublicInputAccess, PublicInputTableAccess, TraceAccess,
};

use vstd::arithmetic::div_mod::{
    lemma_mod_add_multiples_vanish, lemma_mul_mod_noop_left, lemma_mul_mod_noop_right,
    lemma_small_mod, lemma_sub_mod_noop,
};
use vstd::arithmetic::power::{
    lemma_pow0, lemma_pow1, lemma_pow_adds, lemma_pow_mod_noop, lemma_pow_multiplies,
    lemma_square_is_pow2, pow,
};

verus! {

/// The modulus of the field.
pub const MODULUS: u64 = 0xffff_ffff_0000_0001;

/// The number of random evaluation points.
pub const NUM_EVALS: usize = 3;

#[verifier::external_type_specification]
#[verifier::external_body]
pub struct ExThreadRng(ThreadRng);

/// The generator of the current thread (`rand::rng`). Nothing is stated of its state.
#[verifier::external_body]
pub(crate) fn thread_rng() -> ThreadRng {
    rand::rng()
}

/// A field element drawn uniformly at random by the generator, by `rand`'s `Uniform` over
/// `0..MODULUS`: below the modulus. Nothing else is stated of it.
#[verifier::external_body]
pub(crate) fn random_felt(rng: &mut ThreadRng) -> (r: u64)
    ensures
        r < MODULUS,
{
    rng.sample(Uniform::new(0, MODULUS).unwrap())
}

/// The element `a` of the field: `a` reduced modulo the modulus.
pub fn felt_new(a: u64) -> (r: u64)
    ensures
        r == a % MODULUS,
{
    a % MODULUS
}

/// The sum of two elements.
pub fn felt_add(a: u64, b: u64) -> (r: u64)
    ensures
        r == (a + b) % (MODULUS as int),
{
    let s: u128 = a as u128 + b as u128;
    (s % (MODULUS as u128)) as u64
}

/// The difference of two elements.
pub fn felt_sub(a: u64, b: u64) -> (r: u64)
    ensures
        r == (a - b) % (MODULUS as int),
{
    let x = a % MODULUS;
    let y = b % MODULUS;
    proof {
        lemma_sub_mod_noop(a as int, b as int, MODULUS as int);
    }
    if x >= y {
        proof {
            lemma_small_mod((x - y) as nat, MODULUS as nat);
        }
        x - y
    } else {
        proof {
            lemma_mod_add_multiples_vanish(x - y, MODULUS as int);
            lemma_small_mod((x - y + MODULUS) as nat, MODULUS as nat);
        }
        x + (MODULUS - y)
    }
}

/// The product of two elements.
pub fn felt_mul(a: u64, b: u64) -> (r: u64)
    ensures
        r == (a * b) % (MODULUS as int),
{
    proof {
        assert(a * b <= 0xffff_ffff_ffff_ffff * 0xffff_ffff_ffff_ffff) by (nonlinear_arith)
            requires
                a <= 0xffff_ffff_ffff_ffffu64,
                b <= 0xffff_ffff_ffff_ffffu64,
        ;
    }
    let m: u128 = (a as u128) * (b as u128);
    (m % (MODULUS as u128)) as u64
}

/// An element raised to an integer power, by repeated squaring.
pub fn felt_exp(a: u64, e: u64) -> (r: u64)
    ensures
        r == pow(a as int, e as nat) % (MODULUS as int),
{
    let ghost m = MODULUS as int;
    let mut result: u64 = 1;
    let mut base: u64 = a % MODULUS;
    let mut p: u64 = e;
    proof {
        lemma_pow0(base as int);
        lemma_pow_mod_noop(a as int, e as nat, m);
        assert((result * pow(base as int, p as nat)) % m == pow(a as int, e as nat) % m);
    }
    while p > 0
        invariant
            m == MODULUS as int,
            result < MODULUS,
            base < MODULUS,
            (result * pow(base as int, p as nat)) % m == pow(a as int, e as nat) % m,
        decreases p,
    {
        let ghost r0 = result as int;
        let ghost b0 = base as int;
        let ghost p0 = p as nat;
        let k = p / 2;
        let bit = p % 2;
        if bit == 1 {
            result = felt_mul(result, base);
        }
        base = felt_mul(base, base);
        p = k;
        proof {
            lemma_exp_step(r0, b0, p0, k as nat, bit as nat, result as int, base as int, m);
        }
    }
    proof {
        lemma_pow0(base as int);
        lemma_small_mod(result as nat, MODULUS as nat);
    }
    result
}

/// One step of exponentiation by squaring keeps `result * base^p` modulo `m`.
proof fn lemma_exp_step(r0: int, b0: int, p0: nat, k: nat, bit: nat, r1: int, b1: int, m: int)
    requires
        m > 0,
        p0 == 2 * k + bit,
        bit == 0 || bit == 1,
        r1 == (if bit == 1 {
            (r0 * b0) % m
        } else {
            r0
        }),
        b1 == (b0 * b0) % m,
    ensures
        (r1 * pow(b1, k)) % m == (r0 * pow(b0, p0)) % m,
{
    lemma_pow_adds(b0, 2 * k, bit);
    lemma_pow_multiplies(b0, 2, k);
    lemma_square_is_pow2(b0);
    lemma_pow_mod_noop(b0 * b0, k, m);
    let q = pow(b0 * b0, k);
    let t = pow(b1, k);
    assert(t % m == q % m);
    assert(pow(b0, p0) == q * pow(b0, bit));
    if bit == 1 {
        lemma_pow1(b0);
        lemma_mul_mod_noop_left(r0 * b0, t, m);
        lemma_mul_mod_noop_right(r0 * b0, t, m);
        lemma_mul_mod_noop_right(r0 * b0, q, m);
        assert((r0 * b0) * q == r0 * (q * b0)) by (nonlinear_arith);
    } else {
        lemma_pow0(b0);
        lemma_mul_mod_noop_right(r0, t, m);
        lemma_mul_mod_noop_right(r0, q, m);
        assert(q * 1 == q);
    }
}

/// The evaluation of an op at the random points, by the canonical integers of the field
/// elements.
#[derive(Copy, Clone, PartialEq, Eq, Debug, Hash, PartialOrd, Ord)]
pub struct Eval(pub [u64; 3]);

/// Field addition.
pub open spec fn fadd(x: int, y: int) -> int {
    (x + y) % (MODULUS as int)
}

/// Field subtraction.
pub open spec fn fsub(x: int, y: int) -> int {
    (x - y) % (MODULUS as int)
}

/// Field multiplication.
pub open spec fn fmul(x: int, y: int) -> int {
    (x * y) % (MODULUS as int)
}

/// Field exponentiation by the integer `y`.
pub open spec fn fexp(x: int, y: int) -> int {
    pow(x, y as nat) % (MODULUS as int)
}

/// The sum, point by point.
pub open spec fn eval_add(a: Eval, b: Eval) -> Eval {
    Eval([fadd(a.0[0] as int, b.0[0] as int) as u64, fadd(a.0[1] as int, b.0[1] as int) as u64, fadd(a.0[2] as int, b.0[2] as int) as u64])
}

/// The difference, point by point.
pub open spec fn eval_sub(a: Eval, b: Eval) -> Eval {
    Eval([fsub(a.0[0] as int, b.0[0] as int) as u64, fsub(a.0[1] as int, b.0[1] as int) as u64, fsub(a.0[2] as int, b.0[2] as int) as u64])
}

/// The product, point by point.
pub open spec fn eval_mul(a: Eval, b: Eval) -> Eval {
    Eval([fmul(a.0[0] as int, b.0[0] as int) as u64, fmul(a.0[1] as int, b.0[1] as int) as u64, fmul(a.0[2] as int, b.0[2] as int) as u64])
}

/// The power, point by point.
pub open spec fn eval_exp(a: Eval, b: Eval) -> Eval {
    Eval([fexp(a.0[0] as int, b.0[0] as int) as u64, fexp(a.0[1] as int, b.0[1] as int) as u64, fexp(a.0[2] as int, b.0[2] as int) as u64])
}

/// Every point is an element of the field: below the modulus.
pub open spec fn eval_valid(e: Eval) -> bool {
    e.0[0] < MODULUS && e.0[1] < MODULUS && e.0[2] < MODULUS
}

/// The same element at every point.
pub open spec fn constant_eval(c: u64) -> Eval {
    Eval([(c % MODULUS) as u64, (c % MODULUS) as u64, (c % MODULUS) as u64])
}

impl Eval {
    /// The sum, point by point.
    pub fn add(self, other: Self) -> (r: Self)
        ensures
            r == eval_add(self, other),
    {
        Eval([felt_add(self.0[0], other.0[0]), felt_add(self.0[1], other.0[1]), felt_add(self.0[2], other.0[2])])
    }

    /// The difference, point by point.
    pub fn sub(self, other: Self) -> (r: Self)
        ensures
            r == eval_sub(self, other),
    {
        Eval([felt_sub(self.0[0], other.0[0]), felt_sub(self.0[1], other.0[1]), felt_sub(self.0[2], other.0[2])])
    }

    /// The product, point by point.
    pub fn mul(self, other: Self) -> (r: Self)
        ensures
            r == eval_mul(self, other),
    {
        Eval([felt_mul(self.0[0], other.0[0]), felt_mul(self.0[1], other.0[1]), felt_mul(self.0[2], other.0[2])])
    }

    /// The power, point by point, by the integer the exponent's element stands for.
    pub fn exp(self, other: Self) -> (r: Self)
        ensures
            r == eval_exp(self, other),
    {
        Eval([felt_exp(self.0[0], other.0[0]), felt_exp(self.0[1], other.0[1]), felt_exp(self.0[2], other.0[2])])
    }

    /// A new evaluation with random values.
    fn new_random(rng: &mut ThreadRng) -> (r: Self)
        ensures
            eval_valid(r),
    {
        let a = random_felt(rng);
        let b = random_felt(rng);
        let c = random_felt(rng);
        Eval([a, b, c])
    }

    /// The same element at every point.
    pub fn new_const(c: u64) -> (r: Self)
        ensures
            r == constant_eval(c),
    {
        let f = felt_new(c);
        Eval([f, f, f])
    }

    /// The integer representation of the evaluations.
    pub fn as_ints(&self) -> (r: [u64; 3])
        ensures
            r == self.0,
    {
        self.0
    }
}


/// A key of a table of drawn values, compared by value.
pub trait TableKey: Copy + Sized {
    /// Is `other` the same key?
    fn same_key(&self, other: &Self) -> (r: bool)
        ensures
            r == (*self == *other),
    ;
}

impl TableKey for usize {
    fn same_key(&self, other: &Self) -> (r: bool) {
        *self == *other
    }
}

impl TableKey for PublicInputAccess {
    fn same_key(&self, other: &Self) -> (r: bool) {
        *self == *other
    }
}

impl TableKey for PeriodicColumnAccess {
    fn same_key(&self, other: &Self) -> (r: bool) {
        *self == *other
    }
}

impl TableKey for PublicInputTableAccess {
    fn same_key(&self, other: &Self) -> (r: bool) {
        *self == *other
    }
}

/// `a` is the beginning of `b`.
pub open spec fn is_prefix<T>(a: Seq<T>, b: Seq<T>) -> bool {
    a.len() <= b.len() && forall|i: int| 0 <= i < a.len() ==> #[trigger] b[i] == a[i]
}

/// Every evaluation of the list is valid.
pub open spec fn all_valid(s: Seq<Eval>) -> bool {
    forall|i: int| 0 <= i < s.len() ==> eval_valid(#[trigger] s[i])
}

/// Every evaluation of the table is valid.
pub open spec fn keyed_valid<K>(s: Seq<(K, Eval)>) -> bool {
    forall|i: int| 0 <= i < s.len() ==> eval_valid((#[trigger] s[i]).1)
}

/// No key occurs twice in the table.
pub open spec fn keys_distinct<K, V>(s: Seq<(K, V)>) -> bool {
    forall|i: int, j: int| 0 <= i < j < s.len() ==> (#[trigger] s[i]).0 != (#[trigger] s[j]).0
}

/// The table has an entry for `k`.
pub open spec fn has_key<K, V>(s: Seq<(K, V)>, k: K) -> bool {
    exists|i: int| 0 <= i < s.len() && (#[trigger] s[i]).0 == k
}

/// The evaluation the table holds for `k`.
pub open spec fn value_at<K, V>(s: Seq<(K, V)>, k: K) -> V {
    s[choose|i: int| 0 <= i < s.len() && (#[trigger] s[i]).0 == k].1
}

/// In a table without repeated keys, the entry for a key is the one at any index holding it.
pub proof fn lemma_value_at<K, V>(s: Seq<(K, V)>, k: K, i: int)
    requires
        keys_distinct(s),
        0 <= i < s.len(),
        s[i].0 == k,
    ensures
        has_key(s, k),
        value_at(s, k) == s[i].1,
{
    let j = choose|j: int| 0 <= j < s.len() && (#[trigger] s[j]).0 == k;
    if j < i {
        assert(s[j].0 != s[i].0);
    } else if i < j {
        assert(s[i].0 != s[j].0);
    }
}

/// The values drawn so far, so that the same leaf takes the same values everywhere: the
/// columns of the main and auxiliary traces (two rows per column: the current and the next),
/// the random values, and the public inputs, periodic columns and public input tables met.
#[derive(Debug)]
pub struct RandomInputs {
    pub rng: ThreadRng,
    pub main_trace: Vec<Eval>,
    pub aux_trace: Vec<Eval>,
    pub rand_values: Vec<Eval>,
    pub public_inputs: Vec<(usize, Eval)>,
}

impl RandomInputs {
    /// Every value drawn is a valid evaluation, and no key is drawn for twice.
    pub open spec fn wf(&self) -> bool {
        &&& all_valid(self.main_trace@)
        &&& all_valid(self.aux_trace@)
        &&& all_valid(self.rand_values@)
        &&& keyed_valid(self.public_inputs@)
        &&& keys_distinct(self.public_inputs@)
    }
}

impl Default for RandomInputs {
    /// Nothing drawn yet, with the generator of the current thread.
    fn default() -> (r: Self)
        ensures
            r.wf(),
            r.main_trace@.len() == 0,
            r.aux_trace@.len() == 0,
            r.rand_values@.len() == 0,
            r.public_inputs@.len() == 0,
    {
        RandomInputs {
            rng: thread_rng(),
            main_trace: Vec::new(),
            aux_trace: Vec::new(),
            rand_values: Vec::new(),
            public_inputs: Vec::new(),
        }
    }
}

/// `b` holds every value drawn in `a`, unchanged, and maybe more.
pub open spec fn grows(a: RandomInputs, b: RandomInputs) -> bool {
    &&& is_prefix(a.main_trace@, b.main_trace@)
    &&& is_prefix(a.aux_trace@, b.aux_trace@)
    &&& is_prefix(a.rand_values@, b.rand_values@)
    &&& is_prefix(a.public_inputs@, b.public_inputs@)
}

/// Helper function to either query an existing evaluation or create a new random one if the index
/// is out of bounds.
fn query_indexed_cur_eval(rng: &mut ThreadRng, cur_eval_vec: &mut Vec<Eval>, index: usize) -> (r: Eval)
    requires
        index < usize::MAX,
        all_valid(old(cur_eval_vec)@),
    ensures
        final(cur_eval_vec)@.len() == (if old(cur_eval_vec)@.len() <= index {
            index + 1
        } else {
            old(cur_eval_vec)@.len() as int
        }),
        is_prefix(old(cur_eval_vec)@, final(cur_eval_vec)@),
        all_valid(final(cur_eval_vec)@),
        r == final(cur_eval_vec)@[index as int],
{
    while cur_eval_vec.len() <= index
        invariant
            index < usize::MAX,
            old(cur_eval_vec)@.len() <= cur_eval_vec@.len(),
            old(cur_eval_vec)@.len() <= index ==> cur_eval_vec@.len() <= index + 1,
            old(cur_eval_vec)@.len() > index ==> cur_eval_vec@.len() == old(cur_eval_vec)@.len(),
            is_prefix(old(cur_eval_vec)@, cur_eval_vec@),
            all_valid(cur_eval_vec@),
        decreases index + 1 - cur_eval_vec@.len(),
    {
        let e = Eval::new_random(rng);
        cur_eval_vec.push(e);
    }
    cur_eval_vec[index]
}

/// Helper function to either query an existing evaluation or create a new random one if the element
/// is not present in the map.
fn query_hashed_cur_eval<K: TableKey>(rng: &mut ThreadRng, cur_eval_map: &mut Vec<(K, Eval)>, element: &K) -> (r: Eval)
    requires
        keys_distinct(old(cur_eval_map)@),
        keyed_valid(old(cur_eval_map)@),
    ensures
        keys_distinct(final(cur_eval_map)@),
        keyed_valid(final(cur_eval_map)@),
        has_key(old(cur_eval_map)@, *element) ==> final(cur_eval_map)@ == old(cur_eval_map)@,
        !has_key(old(cur_eval_map)@, *element) ==> final(cur_eval_map)@ == old(cur_eval_map)@.push((*element, r)),
        has_key(final(cur_eval_map)@, *element),
        r == value_at(final(cur_eval_map)@, *element),
        eval_valid(r),
{
    let mut i: usize = 0;
    while i < cur_eval_map.len()
        invariant
            i <= cur_eval_map@.len(),
            cur_eval_map@ == old(cur_eval_map)@,
            keys_distinct(old(cur_eval_map)@),
            keyed_valid(old(cur_eval_map)@),
            forall|j: int| 0 <= j < i ==> (#[trigger] cur_eval_map@[j]).0 != *element,
        decreases cur_eval_map@.len() - i,
    {
        if cur_eval_map[i].0.same_key(element) {
            let r = cur_eval_map[i].1;
            proof {
                lemma_value_at(cur_eval_map@, *element, i as int);
            }
            return r;
        }
        i = i + 1;
    }
    let e = Eval::new_random(rng);
    cur_eval_map.push((*element, e));
    proof {
        let s = cur_eval_map@;
        let n = s.len() - 1;
        assert(s[n].0 == *element);
        assert forall|a: int, b: int| 0 <= a < b < s.len() implies (#[trigger] s[a]).0 != (#[trigger] s[b]).0 by {
            if b < n {
                assert(s[a] == old(cur_eval_map)@[a]);
                assert(s[b] == old(cur_eval_map)@[b]);
            } else {
                assert(s[a] == old(cur_eval_map)@[a]);
            }
        }
        lemma_value_at(s, *element, n);
    }
    e
}


/// The index in its trace of the column the access reaches, at row `offset`: two rows per
/// column, the current and the next.
pub open spec fn trace_index(ta: TraceAccess, offset: usize) -> int {
    ta.column * 2 + offset
}

/// Is the known value a leaf that evaluates to the hash of its access, the same at every point?
pub open spec fn is_hashed_value(v: MirValue) -> bool {
    v is PeriodicColumn || v is PublicInputTable
}

/// The evaluation that stands for nothing.
pub open spec fn zero_eval() -> Eval {
    Eval([0, 0, 0])
}

/// Is the known value a leaf that evaluation handles?
pub open spec fn value_supported(v: MirValue) -> bool {
    match v {
        MirValue::Constant(ConstantValue::Felt(_)) => true,
        MirValue::TraceAccess(ta) => ta.segment <= 1,
        MirValue::RandomValue(_) | MirValue::PublicInput(_) | MirValue::PeriodicColumn(_)
        | MirValue::PublicInputTable(_) => true,
        _ => false,
    }
}

/// The index computed for the known value fits in a `usize`, one more included.
pub open spec fn value_fits(v: MirValue) -> bool {
    match v {
        MirValue::TraceAccess(ta) => ta.segment <= 1 ==> trace_index(ta, ta.row_offset) < usize::MAX,
        MirValue::RandomValue(u) => u < usize::MAX,
        _ => true,
    }
}

/// A value has been drawn for the trace cell.
pub open spec fn trace_covered(t: RandomInputs, ta: TraceAccess, offset: usize) -> bool {
    if ta.segment == 0 {
        trace_index(ta, offset) < t.main_trace@.len()
    } else if ta.segment == 1 {
        trace_index(ta, offset) < t.aux_trace@.len()
    } else {
        true
    }
}

/// The value drawn for the trace cell.
pub open spec fn trace_eval(t: RandomInputs, ta: TraceAccess, offset: usize) -> Eval {
    if ta.segment == 0 {
        t.main_trace@[trace_index(ta, offset)]
    } else if ta.segment == 1 {
        t.aux_trace@[trace_index(ta, offset)]
    } else {
        zero_eval()
    }
}

/// A value has been drawn for the known value, where it is not a constant.
pub open spec fn value_covered(t: RandomInputs, v: MirValue) -> bool {
    match v {
        MirValue::TraceAccess(ta) => trace_covered(t, ta, ta.row_offset),
        MirValue::RandomValue(u) => u < t.rand_values@.len(),
        MirValue::PublicInput(k) => has_key(t.public_inputs@, k.index),
        _ => true,
    }
}

/// The evaluation of the known value: a constant at every point, or the values drawn for it.
pub open spec fn value_eval(t: RandomInputs, v: MirValue) -> Eval {
    match v {
        MirValue::Constant(ConstantValue::Felt(c)) => constant_eval(c),
        MirValue::TraceAccess(ta) => trace_eval(t, ta, ta.row_offset),
        MirValue::RandomValue(u) => t.rand_values@[u as int],
        MirValue::PublicInput(k) => value_at(t.public_inputs@, k.index),
        _ => zero_eval(),
    }
}

/// Is the op an arithmetic operation of two operands?
pub open spec fn is_binary(op: Op) -> bool {
    op is Add || op is Sub || op is Mul || op is Exp
}

/// The two operands of an arithmetic operation.
pub open spec fn operands(op: Op) -> (Link<Op>, Link<Op>) {
    match op {
        Op::Add(x) => (x.lhs, x.rhs),
        Op::Sub(x) => (x.lhs, x.rhs),
        Op::Mul(x) => (x.lhs, x.rhs),
        Op::Exp(x) => (x.lhs, x.rhs),
        _ => (Link { ptr: 0, _marker: PhantomData }, Link { ptr: 0, _marker: PhantomData }),
    }
}

/// The arithmetic operation applied to the evaluations of its operands.
pub open spec fn combine(op: Op, a: Eval, b: Eval) -> Eval {
    match op {
        Op::Add(_) => eval_add(a, b),
        Op::Sub(_) => eval_sub(a, b),
        Op::Mul(_) => eval_mul(a, b),
        Op::Exp(_) => eval_exp(a, b),
        _ => zero_eval(),
    }
}

/// The operands are the op's children.
pub proof fn lemma_operands(op: Op)
    requires
        is_binary(op),
    ensures
        op_children(op).len() == 2,
        op_children(op)[0] == operands(op).0,
        op_children(op)[1] == operands(op).1,
{
}

/// Evaluation succeeds on the op: it is built from constraints, arithmetic, bus operations,
/// parameters, accessors and leaves that hold constants, trace cells of the main or auxiliary
/// trace, random values, public inputs, periodic columns and public input tables.
pub open spec fn supported(g: Graph, p: int) -> bool
    decreases g.rank@[p],
    when g.wf() && 0 <= p < g.ops.len()
{
    let op = g.ops@[p];
    if is_binary(op) {
        proof {
            lemma_operands(op);
        }
        supported(g, operands(op).0.ptr as int) && supported(g, operands(op).1.ptr as int)
    } else {
        match op {
            Op::Enf(e) => {
                proof {
                    assert(op_children(op)[0] == e.expr);
                }
                supported(g, e.expr.ptr as int)
            },
            Op::BusOp(_) | Op::Parameter(_) => true,
            Op::Value(v) => value_supported(v.value.value),
            Op::Accessor(a) => {
                proof {
                    assert(op_children(op)[0] == a.indexable);
                }
                match trace_access_of(g.ops@[a.indexable.ptr as int]) {
                    Some(ta) => ta.segment <= 1,
                    None => supported(g, a.indexable.ptr as int),
                }
            },
            _ => false,
        }
    }
}

/// The indices computed while evaluating the op fit in a `usize`, one more included.
pub open spec fn fits(g: Graph, p: int) -> bool
    decreases g.rank@[p],
    when g.wf() && 0 <= p < g.ops.len()
{
    let op = g.ops@[p];
    if is_binary(op) {
        proof {
            lemma_operands(op);
        }
        fits(g, operands(op).0.ptr as int) && fits(g, operands(op).1.ptr as int)
    } else {
        match op {
            Op::Enf(e) => {
                proof {
                    assert(op_children(op)[0] == e.expr);
                }
                fits(g, e.expr.ptr as int)
            },
            Op::Value(v) => value_fits(v.value.value),
            Op::Accessor(a) => {
                proof {
                    assert(op_children(op)[0] == a.indexable);
                }
                match trace_access_of(g.ops@[a.indexable.ptr as int]) {
                    Some(ta) => trace_index(ta, a.offset) < usize::MAX,
                    None => fits(g, a.indexable.ptr as int),
                }
            },
            _ => true,
        }
    }
}

/// The evaluation of the op is a function of the values drawn: it reaches no parameter (each
/// evaluation of which is a fresh draw) and no bus operation (which evaluates to a hash).
pub open spec fn determined(g: Graph, p: int) -> bool
    decreases g.rank@[p],
    when g.wf() && 0 <= p < g.ops.len()
{
    let op = g.ops@[p];
    if is_binary(op) {
        proof {
            lemma_operands(op);
        }
        determined(g, operands(op).0.ptr as int) && determined(g, operands(op).1.ptr as int)
    } else {
        match op {
            Op::Enf(e) => {
                proof {
                    assert(op_children(op)[0] == e.expr);
                }
                determined(g, e.expr.ptr as int)
            },
            Op::BusOp(_) | Op::Parameter(_) => false,
            Op::Value(v) => !is_hashed_value(v.value.value),
            Op::Accessor(a) => {
                proof {
                    assert(op_children(op)[0] == a.indexable);
                }
                match trace_access_of(g.ops@[a.indexable.ptr as int]) {
                    Some(ta) => true,
                    None => determined(g, a.indexable.ptr as int),
                }
            },
            _ => true,
        }
    }
}

/// Values have been drawn for every leaf the op reaches.
pub open spec fn covered(t: RandomInputs, g: Graph, p: int) -> bool
    decreases g.rank@[p],
    when g.wf() && 0 <= p < g.ops.len()
{
    let op = g.ops@[p];
    if is_binary(op) {
        proof {
            lemma_operands(op);
        }
        covered(t, g, operands(op).0.ptr as int) && covered(t, g, operands(op).1.ptr as int)
    } else {
        match op {
            Op::Enf(e) => {
                proof {
                    assert(op_children(op)[0] == e.expr);
                }
                covered(t, g, e.expr.ptr as int)
            },
            Op::Value(v) => value_covered(t, v.value.value),
            Op::Accessor(a) => {
                proof {
                    assert(op_children(op)[0] == a.indexable);
                }
                match trace_access_of(g.ops@[a.indexable.ptr as int]) {
                    Some(ta) => trace_covered(t, ta, a.offset),
                    None => covered(t, g, a.indexable.ptr as int),
                }
            },
            _ => true,
        }
    }
}

/// The evaluation of the op with the values drawn in `t`: field arithmetic over the
/// evaluations of its leaves. An accessor of a trace cell reads the cell at the accessor's row
/// offset; any other accessor evaluates as what it indexes.
pub open spec fn eval_value(t: RandomInputs, g: Graph, p: int) -> Eval
    decreases g.rank@[p],
    when g.wf() && 0 <= p < g.ops.len()
{
    let op = g.ops@[p];
    if is_binary(op) {
        proof {
            lemma_operands(op);
        }
        combine(op, eval_value(t, g, operands(op).0.ptr as int), eval_value(t, g, operands(op).1.ptr as int))
    } else {
        match op {
            Op::Enf(e) => {
                proof {
                    assert(op_children(op)[0] == e.expr);
                }
                eval_value(t, g, e.expr.ptr as int)
            },
            Op::Value(v) => value_eval(t, v.value.value),
            Op::Accessor(a) => {
                proof {
                    assert(op_children(op)[0] == a.indexable);
                }
                match trace_access_of(g.ops@[a.indexable.ptr as int]) {
                    Some(ta) => trace_eval(t, ta, a.offset),
                    None => eval_value(t, g, a.indexable.ptr as int),
                }
            },
            _ => zero_eval(),
        }
    }
}

/// What a table held for a key it keeps, once more keys were added.
pub proof fn lemma_prefix_key<K, V>(a: Seq<(K, V)>, b: Seq<(K, V)>, k: K)
    requires
        keys_distinct(a),
        keys_distinct(b),
        is_prefix(a, b),
        has_key(a, k),
    ensures
        has_key(b, k),
        value_at(b, k) == value_at(a, k),
{
    let i = choose|i: int| 0 <= i < a.len() && (#[trigger] a[i]).0 == k;
    assert(b[i] == a[i]);
    lemma_value_at(a, k, i);
    lemma_value_at(b, k, i);
}

/// Drawing more values changes no evaluation whose leaves all had values drawn: what was drawn
/// for a leaf is kept, so the same leaf takes the same value everywhere.
pub proof fn law_eval_stable(t1: RandomInputs, t2: RandomInputs, g: Graph, p: int)
    requires
        g.wf(),
        0 <= p < g.ops.len(),
        t1.wf(),
        t2.wf(),
        grows(t1, t2),
        covered(t1, g, p),
    ensures
        covered(t2, g, p),
        eval_value(t2, g, p) == eval_value(t1, g, p),
    decreases g.rank@[p],
{
    let op = g.ops@[p];
    if is_binary(op) {
        lemma_operands(op);
        law_eval_stable(t1, t2, g, operands(op).0.ptr as int);
        law_eval_stable(t1, t2, g, operands(op).1.ptr as int);
    } else {
        match op {
            Op::Enf(e) => {
                assert(op_children(op)[0] == e.expr);
                law_eval_stable(t1, t2, g, e.expr.ptr as int);
            },
            Op::Value(v) => {
                match v.value.value {
                    MirValue::PublicInput(k) => lemma_prefix_key(t1.public_inputs@, t2.public_inputs@, k.index),
                    _ => {},
                }
            },
            Op::Accessor(a) => {
                assert(op_children(op)[0] == a.indexable);
                if trace_access_of(g.ops@[a.indexable.ptr as int]) is None {
                    law_eval_stable(t1, t2, g, a.indexable.ptr as int);
                }
            },
            _ => {},
        }
    }
}

/// `v` is, at each of the three points, `f` of what `a` and `b` are there.
pub open spec fn at_points(v: Eval, a: Eval, b: Eval, f: spec_fn(int, int) -> int) -> bool {
    &&& v.0[0] as int == f(a.0[0] as int, b.0[0] as int)
    &&& v.0[1] as int == f(a.0[1] as int, b.0[1] as int)
    &&& v.0[2] as int == f(a.0[2] as int, b.0[2] as int)
}

/// Evaluation is field arithmetic point by point: a sum evaluates to the sum of its left and right
/// operands, a difference to the left operand minus the right one, a product to their product,
/// and a power to the left operand raised to the right one, each reduced modulo the field's
/// modulus; a constraint evaluates as its expression; an accessor of a cell of the main trace
/// reads the cell at its column and the accessor's row offset; a constant is itself, reduced, at
/// every point.
pub proof fn law_eval_arithmetic(t: RandomInputs, g: Graph, p: int)
    requires
        g.wf(),
        0 <= p < g.ops.len(),
    ensures
        g.ops@[p] matches Op::Add(x) ==> at_points(
            eval_value(t, g, p),
            eval_value(t, g, x.lhs.ptr as int),
            eval_value(t, g, x.rhs.ptr as int),
            |a: int, b: int| (a + b) % (MODULUS as int),
        ),
        g.ops@[p] matches Op::Sub(x) ==> at_points(
            eval_value(t, g, p),
            eval_value(t, g, x.lhs.ptr as int),
            eval_value(t, g, x.rhs.ptr as int),
            |a: int, b: int| (a - b) % (MODULUS as int),
        ),
        g.ops@[p] matches Op::Mul(x) ==> at_points(
            eval_value(t, g, p),
            eval_value(t, g, x.lhs.ptr as int),
            eval_value(t, g, x.rhs.ptr as int),
            |a: int, b: int| (a * b) % (MODULUS as int),
        ),
        g.ops@[p] matches Op::Exp(x) ==> at_points(
            eval_value(t, g, p),
            eval_value(t, g, x.lhs.ptr as int),
            eval_value(t, g, x.rhs.ptr as int),
            |a: int, b: int| pow(a, b as nat) % (MODULUS as int),
        ),
        g.ops@[p] matches Op::Enf(e) ==> eval_value(t, g, p) == eval_value(t, g, e.expr.ptr as int),
        ({
            let acc = g.ops@[p]->Accessor_0;
            let ind = g.ops@[acc.indexable.ptr as int];
            g.ops@[p] is Accessor && ind is Value && ind->Value_0.value.value is TraceAccess
                && ind->Value_0.value.value->TraceAccess_0.segment == 0 ==> eval_value(t, g, p)
                == t.main_trace@[ind->Value_0.value.value->TraceAccess_0.column * 2 + acc.offset]
        }),
        ({
            let mv = g.ops@[p]->Value_0.value.value;
            g.ops@[p] is Value && mv is Constant && mv->Constant_0 is Felt ==> {
                let c = mv->Constant_0->Felt_0;
                &&& eval_value(t, g, p).0[0] == c % MODULUS
                &&& eval_value(t, g, p).0[1] == c % MODULUS
                &&& eval_value(t, g, p).0[2] == c % MODULUS
            }
        }),
{
    let op = g.ops@[p];
    if is_binary(op) {
        lemma_operands(op);
        let a = eval_value(t, g, operands(op).0.ptr as int);
        let b = eval_value(t, g, operands(op).1.ptr as int);
        assert(eval_value(t, g, p) == combine(op, a, b));
    } else if op is Enf {
        assert(op_children(op)[0] == op->Enf_0.expr);
        assert(eval_value(t, g, p) == eval_value(t, g, op->Enf_0.expr.ptr as int));
    } else if op is Accessor {
        assert(op_children(op)[0] == op->Accessor_0.indexable);
    } else if op is Value {
        assert(eval_value(t, g, p) == value_eval(t, op->Value_0.value.value));
        if let MirValue::Constant(ConstantValue::Felt(c)) = op->Value_0.value.value {
            let e = eval_value(t, g, p);
            assert(e == constant_eval(c));
        }
    }
}

/// The number a bus operation kind is hashed by.
fn bus_op_kind_code(kind: BusOpKind) -> (r: u8)
    ensures
        r == (if kind is Insert {
            0u8
        } else {
            1u8
        }),
{
    match kind {
        BusOpKind::Insert => 0,
        BusOpKind::Remove => 1,
    }
}

/// Evaluates a given MIR node at random points.
///
/// Leaves take the values drawn for them in `current_evals`, drawing new ones where none were
/// drawn yet (a public input by its index); a parameter takes fresh random values each time
/// (parameters of different loops cannot be told apart); a bus operation, a periodic column and
/// a public input table are each a constant, the hash of the operation or of the access.
pub fn eval_random_point(current_evals: &mut RandomInputs, g: &Graph, op: Link<Op>) -> (r: Result<Eval, CompileError>)
    requires
        g.wf(),
        op.ptr < g.ops.len(),
        old(current_evals).wf(),
        fits(*g, op.ptr as int),
    ensures
        final(current_evals).wf(),
        grows(*old(current_evals), *final(current_evals)),
        r is Ok <==> supported(*g, op.ptr as int),
        r matches Ok(e) ==> eval_valid(e) && covered(*final(current_evals), *g, op.ptr as int),
        r matches Ok(e) ==> (determined(*g, op.ptr as int) ==> e == eval_value(*final(current_evals), *g, op.ptr as int)),
        r matches Ok(e) ==> (g.ops@[op.ptr as int] is BusOp ==> e.0[0] == e.0[1] && e.0[1] == e.0[2]),
        r matches Ok(e) ==> (g.ops@[op.ptr as int] matches Op::Value(v) && is_hashed_value(v.value.value) ==> e.0[0]
            == e.0[1] && e.0[1] == e.0[2]),
    decreases g.rank@[op.ptr as int],
{
    let ghost p = op.ptr as int;
    let ghost start = *current_evals;
    let node = &g.ops[op.ptr];
    if let Op::Enf(e) = node {
        proof {
            assert(op_children(*node)[0] == e.expr);
        }
        return eval_random_point(current_evals, g, e.expr);
    }
    if is_binary_op(node) {
        let (lhs_link, rhs_link) = binary_operands(node);
        proof {
            lemma_operands(*node);
        }
        let lhs = match eval_random_point(current_evals, g, lhs_link) {
            Ok(v) => v,
            Err(e) => return Err(e),
        };
        let ghost mid = *current_evals;
        let rhs = match eval_random_point(current_evals, g, rhs_link) {
            Ok(v) => v,
            Err(e) => return Err(e),
        };
        proof {
            law_eval_stable(mid, *current_evals, *g, lhs_link.ptr as int);
        }
        return Ok(
            match node {
                Op::Add(_) => lhs.add(rhs),
                Op::Sub(_) => lhs.sub(rhs),
                Op::Mul(_) => lhs.mul(rhs),
                _ => lhs.exp(rhs),
            },
        );
    }
    match node {
        Op::BusOp(b) => {
            let mut args: Vec<usize> = Vec::new();
            let mut i: usize = 0;
            while i < b.args.len()
                invariant
                    i <= b.args.len(),
                decreases b.args.len() - i,
            {
                args.push(b.args[i].ptr);
                i = i + 1;
            }
            let h = hash(&("BusOp", b.bus.ptr, bus_op_kind_code(b.kind), b.latch.ptr, args));
            Ok(Eval::new_const(h))
        },
        Op::Parameter(_) => Ok(Eval::new_random(&mut current_evals.rng)),
        Op::Value(v) => match &v.value.value {
            MirValue::Constant(ConstantValue::Felt(c)) => Ok(Eval::new_const(*c)),
            MirValue::TraceAccess(trace_access) => {
                if trace_access.segment == 0 {
                    let index = trace_access.column * 2 + trace_access.row_offset;
                    Ok(query_indexed_cur_eval(&mut current_evals.rng, &mut current_evals.main_trace, index))
                } else if trace_access.segment == 1 {
                    let index = trace_access.column * 2 + trace_access.row_offset;
                    Ok(query_indexed_cur_eval(&mut current_evals.rng, &mut current_evals.aux_trace, index))
                } else {
                    Err(CompileError::Failed)
                }
            },
            MirValue::RandomValue(u) => Ok(
                query_indexed_cur_eval(&mut current_evals.rng, &mut current_evals.rand_values, *u),
            ),
            MirValue::PublicInput(pi) => Ok(
                query_hashed_cur_eval(&mut current_evals.rng, &mut current_evals.public_inputs, &pi.index),
            ),
            MirValue::PeriodicColumn(pc) => Ok(Eval::new_const(hash(&("PeriodicColumn", *pc)))),
            MirValue::PublicInputTable(pita) => Ok(Eval::new_const(hash(&("PublicInputTable", *pita)))),
            _ => Err(CompileError::Failed),
        },
        Op::Accessor(a) => {
            proof {
                assert(op_children(*node)[0] == a.indexable);
            }
            if let Op::Value(v) = &g.ops[a.indexable.ptr] {
                if let MirValue::TraceAccess(trace_access) = &v.value.value {
                    // The accessor's offset stands in for the access's own row offset.
                    let index = trace_access.column * 2 + a.offset;
                    if trace_access.segment == 0 {
                        return Ok(query_indexed_cur_eval(&mut current_evals.rng, &mut current_evals.main_trace, index));
                    } else if trace_access.segment == 1 {
                        return Ok(query_indexed_cur_eval(&mut current_evals.rng, &mut current_evals.aux_trace, index));
                    } else {
                        return Err(CompileError::Failed);
                    }
                }
            }
            eval_random_point(current_evals, g, a.indexable)
        },
        _ => Err(CompileError::Failed),
    }
}

/// Is the op an arithmetic operation of two operands?
fn is_binary_op(op: &Op) -> (r: bool)
    ensures
        r == is_binary(*op),
{
    match op {
        Op::Add(_) | Op::Sub(_) | Op::Mul(_) | Op::Exp(_) => true,
        _ => false,
    }
}

/// The two operands of an arithmetic operation.
fn binary_operands(op: &Op) -> (r: (Link<Op>, Link<Op>))
    requires
        is_binary(*op),
    ensures
        r == operands(*op),
{
    match op {
        Op::Add(x) => (x.lhs, x.rhs),
        Op::Sub(x) => (x.lhs, x.rhs),
        Op::Mul(x) => (x.lhs, x.rhs),
        Op::Exp(x) => (x.lhs, x.rhs),
        _ => (Link::new(0), Link::new(0)),
    }
}

} // verus!
