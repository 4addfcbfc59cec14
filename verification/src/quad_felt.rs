//! The quadratic extension of the base field: elements `a + b·φ`, where `φ` is a root of the
//! irreducible polynomial `x² - x + 2`, so that `φ² = φ - 2`.
use vstd::prelude::*;

use crate::eval::{fadd, felt_add, felt_mul, felt_new, felt_sub, fmul, fsub, MODULUS};

use vstd::arithmetic::div_mod::{
    lemma_add_mod_noop, lemma_mod_bound, lemma_mul_mod_noop_left, lemma_mul_mod_noop_right,
    lemma_small_mod, lemma_sub_mod_noop,
};

verus! {

/// An element of the extension, `a + b·φ`, by the canonical integers of `a` and `b`.
#[derive(Copy, Clone, PartialEq, Eq, Debug)]
pub struct QuadFelt(pub u64, pub u64);

/// Both coordinates are elements of the base field.
pub open spec fn quad_valid(x: QuadFelt) -> bool {
    x.0 < MODULUS && x.1 < MODULUS
}

/// The element `1`.
pub open spec fn quad_one() -> QuadFelt {
    QuadFelt(1, 0)
}

/// The element `0`.
pub open spec fn quad_zero() -> QuadFelt {
    QuadFelt(0, 0)
}

/// The sum.
pub open spec fn quad_add(x: QuadFelt, y: QuadFelt) -> QuadFelt {
    QuadFelt(fadd(x.0 as int, y.0 as int) as u64, fadd(x.1 as int, y.1 as int) as u64)
}

/// The difference.
pub open spec fn quad_sub(x: QuadFelt, y: QuadFelt) -> QuadFelt {
    QuadFelt(fsub(x.0 as int, y.0 as int) as u64, fsub(x.1 as int, y.1 as int) as u64)
}

/// The first coordinate of the product, before reduction: `(a + bφ)(c + dφ) = ac - 2bd + ...`.
pub open spec fn mul0(a: int, b: int, c: int, d: int) -> int {
    a * c - 2 * (b * d)
}

/// The second coordinate of the product, before reduction: `... + (ad + bc + bd)φ`.
pub open spec fn mul1(a: int, b: int, c: int, d: int) -> int {
    a * d + b * c + b * d
}

/// The product, with `φ² = φ - 2`.
pub open spec fn quad_mul(x: QuadFelt, y: QuadFelt) -> QuadFelt {
    QuadFelt(
        (mul0(x.0 as int, x.1 as int, y.0 as int, y.1 as int) % (MODULUS as int)) as u64,
        (mul1(x.0 as int, x.1 as int, y.0 as int, y.1 as int) % (MODULUS as int)) as u64,
    )
}

/// `x` raised to the power `n`: the product of `n` copies of `x`.
pub open spec fn quad_pow(x: QuadFelt, n: nat) -> QuadFelt
    decreases n,
{
    if n == 0 {
        quad_one()
    } else {
        quad_mul(x, quad_pow(x, (n - 1) as nat))
    }
}

/// Congruent coordinates give congruent products.
proof fn lemma_mul_congruent(a: int, b: int, c: int, d: int, a2: int, b2: int, c2: int, d2: int)
    requires
        a % (MODULUS as int) == a2 % (MODULUS as int),
        b % (MODULUS as int) == b2 % (MODULUS as int),
        c % (MODULUS as int) == c2 % (MODULUS as int),
        d % (MODULUS as int) == d2 % (MODULUS as int),
    ensures
        mul0(a, b, c, d) % (MODULUS as int) == mul0(a2, b2, c2, d2) % (MODULUS as int),
        mul1(a, b, c, d) % (MODULUS as int) == mul1(a2, b2, c2, d2) % (MODULUS as int),
{
    let m = MODULUS as int;
    assert forall|x: int, y: int, x2: int, y2: int| x % m == x2 % m && y % m == y2 % m implies #[trigger] (x * y) % m == #[trigger] (x2 * y2) % m by {
        lemma_mul_mod_noop_left(x, y, m);
        lemma_mul_mod_noop_left(x2, y, m);
        lemma_mul_mod_noop_right(x2, y, m);
        lemma_mul_mod_noop_right(x2, y2, m);
    }
    assert((a * c) % m == (a2 * c2) % m);
    assert((b * d) % m == (b2 * d2) % m);
    assert((a * d) % m == (a2 * d2) % m);
    assert((b * c) % m == (b2 * c2) % m);
    lemma_mul_mod_noop_right(2, b * d, m);
    lemma_mul_mod_noop_right(2, b2 * d2, m);
    lemma_sub_mod_noop(a * c, 2 * (b * d), m);
    lemma_sub_mod_noop(a2 * c2, 2 * (b2 * d2), m);
    lemma_add_mod_noop(a * d, b * c, m);
    lemma_add_mod_noop(a2 * d2, b2 * c2, m);
    lemma_add_mod_noop(a * d + b * c, b * d, m);
    lemma_add_mod_noop(a2 * d2 + b2 * c2, b2 * d2, m);
}

/// The product of two elements is an element.
pub proof fn lemma_mul_valid(x: QuadFelt, y: QuadFelt)
    ensures
        quad_valid(quad_mul(x, y)),
{
    let m = MODULUS as int;
    lemma_mod_bound(mul0(x.0 as int, x.1 as int, y.0 as int, y.1 as int), m);
    lemma_mod_bound(mul1(x.0 as int, x.1 as int, y.0 as int, y.1 as int), m);
}

/// Multiplication of the extension is commutative.
pub proof fn law_mul_commutative(x: QuadFelt, y: QuadFelt)
    ensures
        quad_mul(x, y) == quad_mul(y, x),
{
    let (a, b, c, d) = (x.0 as int, x.1 as int, y.0 as int, y.1 as int);
    assert(mul0(a, b, c, d) == mul0(c, d, a, b)) by (nonlinear_arith);
    assert(mul1(a, b, c, d) == mul1(c, d, a, b)) by (nonlinear_arith);
}

/// Multiplication of the extension is associative.
pub proof fn law_mul_associative(x: QuadFelt, y: QuadFelt, z: QuadFelt)
    ensures
        quad_mul(quad_mul(x, y), z) == quad_mul(x, quad_mul(y, z)),
{
    let m = MODULUS as int;
    let (a, b) = (x.0 as int, x.1 as int);
    let (c, d) = (y.0 as int, y.1 as int);
    let (e, f) = (z.0 as int, z.1 as int);
    let xy = quad_mul(x, y);
    let yz = quad_mul(y, z);
    let p0 = mul0(a, b, c, d);
    let p1 = mul1(a, b, c, d);
    let q0 = mul0(c, d, e, f);
    let q1 = mul1(c, d, e, f);
    lemma_mul_valid(x, y);
    lemma_mul_valid(y, z);
    assert((xy.0 as int) % m == p0 % m) by {
        lemma_mod_bound(p0, m);
        lemma_small_mod((p0 % m) as nat, m as nat);
    }
    assert((xy.1 as int) % m == p1 % m) by {
        lemma_mod_bound(p1, m);
        lemma_small_mod((p1 % m) as nat, m as nat);
    }
    assert((yz.0 as int) % m == q0 % m) by {
        lemma_mod_bound(q0, m);
        lemma_small_mod((q0 % m) as nat, m as nat);
    }
    assert((yz.1 as int) % m == q1 % m) by {
        lemma_mod_bound(q1, m);
        lemma_small_mod((q1 % m) as nat, m as nat);
    }
    lemma_mul_congruent(xy.0 as int, xy.1 as int, e, f, p0, p1, e, f);
    lemma_mul_congruent(a, b, yz.0 as int, yz.1 as int, a, b, q0, q1);
    assert(p0 * e == a * c * e - 2 * (b * d * e)) by (nonlinear_arith)
        requires
            p0 == a * c - 2 * (b * d),
    ;
    assert(p0 * f == a * c * f - 2 * (b * d * f)) by (nonlinear_arith)
        requires
            p0 == a * c - 2 * (b * d),
    ;
    assert(p1 * e == a * d * e + b * c * e + b * d * e) by (nonlinear_arith)
        requires
            p1 == a * d + b * c + b * d,
    ;
    assert(p1 * f == a * d * f + b * c * f + b * d * f) by (nonlinear_arith)
        requires
            p1 == a * d + b * c + b * d,
    ;
    assert(a * q0 == a * c * e - 2 * (a * d * f)) by (nonlinear_arith)
        requires
            q0 == c * e - 2 * (d * f),
    ;
    assert(b * q0 == b * c * e - 2 * (b * d * f)) by (nonlinear_arith)
        requires
            q0 == c * e - 2 * (d * f),
    ;
    assert(a * q1 == a * c * f + a * d * e + a * d * f) by (nonlinear_arith)
        requires
            q1 == c * f + d * e + d * f,
    ;
    assert(b * q1 == b * c * f + b * d * e + b * d * f) by (nonlinear_arith)
        requires
            q1 == c * f + d * e + d * f,
    ;
    assert(mul0(p0, p1, e, f) == mul0(a, b, q0, q1));
    assert(mul1(p0, p1, e, f) == mul1(a, b, q0, q1));
}

/// `1` is neutral for the multiplication of elements.
pub proof fn lemma_mul_one(x: QuadFelt)
    requires
        quad_valid(x),
    ensures
        quad_mul(quad_one(), x) == x,
        quad_mul(x, quad_one()) == x,
{
    let m = MODULUS as int;
    lemma_small_mod(x.0 as nat, m as nat);
    lemma_small_mod(x.1 as nat, m as nat);
    law_mul_commutative(x, quad_one());
}

/// Powers are elements.
pub proof fn lemma_pow_valid(x: QuadFelt, n: nat)
    ensures
        quad_valid(quad_pow(x, n)),
    decreases n,
{
    if n > 0 {
        lemma_mul_valid(x, quad_pow(x, (n - 1) as nat));
    }
}

/// `x^(a + b) = x^a · x^b`.
pub proof fn law_pow_adds(x: QuadFelt, a: nat, b: nat)
    ensures
        quad_pow(x, a + b) == quad_mul(quad_pow(x, a), quad_pow(x, b)),
    decreases a,
{
    if a == 0 {
        lemma_pow_valid(x, b);
        lemma_mul_one(quad_pow(x, b));
    } else {
        law_pow_adds(x, (a - 1) as nat, b);
        assert((a + b - 1) as nat == (a - 1) as nat + b);
        law_mul_associative(x, quad_pow(x, (a - 1) as nat), quad_pow(x, b));
    }
}

/// `(x²)^k = x^(2k)`.
pub proof fn law_pow_square(x: QuadFelt, k: nat)
    ensures
        quad_pow(quad_mul(x, x), k) == quad_pow(x, 2 * k),
    decreases k,
{
    if k > 0 {
        law_pow_square(x, (k - 1) as nat);
        let rest = quad_pow(x, (2 * (k - 1)) as nat);
        assert(quad_pow(x, 2 * k) == quad_mul(x, quad_pow(x, (2 * k - 1) as nat)));
        assert(quad_pow(x, (2 * k - 1) as nat) == quad_mul(x, rest));
        law_mul_associative(x, x, rest);
    }
}

/// The element `x` of the base field, in the extension.
pub fn quad_const(felt: u64) -> (r: QuadFelt)
    requires
        felt < MODULUS,
    ensures
        r == QuadFelt(felt, 0),
{
    QuadFelt(felt, 0)
}

impl QuadFelt {
    /// The sum.
    pub fn add(self, other: Self) -> (r: Self)
        ensures
            r == quad_add(self, other),
    {
        QuadFelt(felt_add(self.0, other.0), felt_add(self.1, other.1))
    }

    /// The difference.
    pub fn sub(self, other: Self) -> (r: Self)
        ensures
            r == quad_sub(self, other),
    {
        QuadFelt(felt_sub(self.0, other.0), felt_sub(self.1, other.1))
    }

    /// The product.
    pub fn mul(self, other: Self) -> (r: Self)
        ensures
            r == quad_mul(self, other),
    {
        let ghost m = MODULUS as int;
        let (a, b, c, d) = (self.0, self.1, other.0, other.1);
        let ac = felt_mul(a, c);
        let bd = felt_mul(b, d);
        let ad = felt_mul(a, d);
        let bc = felt_mul(b, c);
        let two_bd = felt_mul(2, bd);
        let r0 = felt_sub(ac, two_bd);
        let s = felt_add(ad, bc);
        let r1 = felt_add(s, bd);
        proof {
            let (ai, bi, ci, di) = (a as int, b as int, c as int, d as int);
            lemma_mul_mod_noop_right(2, bi * di, m);
            lemma_sub_mod_noop(ai * ci, 2 * (bi * di), m);
            lemma_add_mod_noop(ai * di, bi * ci, m);
            lemma_add_mod_noop(ai * di + bi * ci, bi * di, m);
            lemma_small_mod(2, m as nat);
            let si = s as int;
            assert(si == (ai * di + bi * ci) % m) by {
                lemma_add_mod_noop(ai * di, bi * ci, m);
            }
            lemma_mod_bound(ai * di + bi * ci, m);
            lemma_add_mod_noop(si, bi * di, m);
            lemma_small_mod(si as nat, m as nat);
        }
        QuadFelt(r0, r1)
    }

    /// The element raised to the power `power`, by squaring and multiplying.
    pub fn exp(self, power: u64) -> (r: Self)
        requires
            quad_valid(self),
        ensures
            r == quad_pow(self, power as nat),
    {
        if power == 0 {
            return QuadFelt(1, 0);
        }
        if self.0 == 0 && self.1 == 0 {
            proof {
                assert(quad_mul(self, quad_pow(self, (power - 1) as nat)) == quad_zero());
            }
            return QuadFelt(0, 0);
        }
        let mut r = QuadFelt(1, 0);
        let mut b = self;
        let mut p = power;
        proof {
            lemma_mul_one(quad_pow(self, power as nat));
            lemma_pow_valid(self, power as nat);
        }
        while p > 0
            invariant
                quad_valid(r),
                quad_valid(b),
                quad_mul(r, quad_pow(b, p as nat)) == quad_pow(self, power as nat),
            decreases p,
        {
            let ghost r0 = r;
            let ghost b0 = b;
            let ghost p0 = p as nat;
            let k = p / 2;
            if p % 2 == 1 {
                r = r.mul(b);
            }
            b = b.mul(b);
            p = k;
            proof {
                lemma_mul_valid(r0, b0);
                lemma_mul_valid(b0, b0);
                law_pow_square(b0, k as nat);
                if p0 % 2 == 1 {
                    assert(p0 == 1 + 2 * (k as nat));
                    law_pow_adds(b0, 1, 2 * (k as nat));
                    assert(quad_pow(b0, 0) == quad_one());
                    assert(quad_pow(b0, 1) == quad_mul(b0, quad_one()));
                    lemma_mul_one(b0);
                    law_mul_associative(r0, b0, quad_pow(b0, 2 * (k as nat)));
                } else {
                    assert(p0 == 2 * (k as nat));
                }
            }
        }
        proof {
            lemma_mul_one(r);
        }
        r
    }

    /// The coordinates `[a, b]` of `a + b·φ`.
    pub fn to_base_elements(self) -> (r: [u64; 2])
        ensures
            r == [self.0, self.1],
    {
        [self.0, self.1]
    }
}

/// The element `felt` of the base field, reduced, in the extension.
pub fn quad_from_int(c: u64) -> (r: QuadFelt)
    ensures
        r == QuadFelt((c % MODULUS) as u64, 0),
{
    QuadFelt(felt_new(c), 0)
}

} // verus!
