use vstd::prelude::*;

verus! {

/// Model of an exact complex amplitude: the value
/// `ra + rb*sqrt(2) + (ia + ib*sqrt(2)) * i`, an element of the ring
/// Z[i, sqrt(2)].  Together with a global power-of-sqrt(2) denominator this
/// represents every amplitude reachable from basis states by the engine's
/// gate set, with no rounding anywhere.
pub struct CxV {
    pub ra: int,
    pub rb: int,
    pub ia: int,
    pub ib: int,
}

pub open spec fn cxv_zero() -> CxV {
    CxV { ra: 0, rb: 0, ia: 0, ib: 0 }
}

pub open spec fn cxv_one() -> CxV {
    CxV { ra: 1, rb: 0, ia: 0, ib: 0 }
}

pub open spec fn cxv_add(a: CxV, b: CxV) -> CxV {
    CxV { ra: a.ra + b.ra, rb: a.rb + b.rb, ia: a.ia + b.ia, ib: a.ib + b.ib }
}

pub open spec fn cxv_neg(a: CxV) -> CxV {
    CxV { ra: -a.ra, rb: -a.rb, ia: -a.ia, ib: -a.ib }
}

/// Ring multiplication, using sqrt(2)*sqrt(2) == 2 and i*i == -1.
pub open spec fn cxv_mul(a: CxV, b: CxV) -> CxV {
    CxV {
        ra: a.ra * b.ra + 2 * a.rb * b.rb - a.ia * b.ia - 2 * a.ib * b.ib,
        rb: a.ra * b.rb + a.rb * b.ra - a.ia * b.ib - a.ib * b.ia,
        ia: a.ra * b.ia + 2 * a.rb * b.ib + a.ia * b.ra + 2 * a.ib * b.rb,
        ib: a.ra * b.ib + a.rb * b.ia + a.ia * b.rb + a.ib * b.ra,
    }
}

/// The squared magnitude of the amplitude is the real number
/// `norm_p + norm_q * sqrt(2)`.
pub open spec fn norm_p(a: CxV) -> int {
    a.ra * a.ra + 2 * a.rb * a.rb + a.ia * a.ia + 2 * a.ib * a.ib
}

pub open spec fn norm_q(a: CxV) -> int {
    2 * (a.ra * a.rb + a.ia * a.ib)
}

/// All four integer components lie in `[-b, b]`.
pub open spec fn cx_abs_le(a: CxV, b: int) -> bool {
    &&& -b <= a.ra <= b
    &&& -b <= a.rb <= b
    &&& -b <= a.ia <= b
    &&& -b <= a.ib <= b
}

/// Capacity bound for a stored amplitude component: 2^100.
pub open spec fn amp_bound() -> int {
    0x10000000000000000000000000
}

/// Bound under which ring addition cannot overflow `i128`: 2^125.
pub open spec fn add_bound() -> int {
    0x20000000000000000000000000000000
}

/// Bound on the large factor of a product (the small factor is a matrix
/// entry, bounded by 4): 2^120.
pub open spec fn mul_bound() -> int {
    0x1000000000000000000000000000000
}

/// Bound on each factor of a tensor-product entry: 2^60.
pub open spec fn tensor_bound() -> int {
    0x1000000000000000
}

proof fn lemma_mul_abs(x: int, y: int, bx: int, by: int)
    requires -bx <= x <= bx, -by <= y <= by, 0 <= bx, 0 <= by,
    ensures -(bx * by) <= x * y <= bx * by,
{
    assert(-(bx * by) <= x * y <= bx * by) by (nonlinear_arith)
        requires -bx <= x <= bx, -by <= y <= by, 0 <= bx, 0 <= by;
}

/// A product by an entry whose components are at most 1 grows each
/// component by a factor of at most 6.
pub proof fn lemma_mul_small_bound(e: CxV, a: CxV, b: int)
    requires cx_abs_le(e, 1), cx_abs_le(a, b), b >= 0,
    ensures cx_abs_le(cxv_mul(e, a), 6 * b),
{
    assert(-(6 * b) <= e.ra * a.ra + 2 * e.rb * a.rb - e.ia * a.ia - 2 * e.ib * a.ib <= 6 * b) by (nonlinear_arith)
        requires -1 <= e.ra <= 1, -1 <= e.rb <= 1, -1 <= e.ia <= 1, -1 <= e.ib <= 1,
            -b <= a.ra <= b, -b <= a.rb <= b, -b <= a.ia <= b, -b <= a.ib <= b, b >= 0;
    assert(-(6 * b) <= e.ra * a.rb + e.rb * a.ra - e.ia * a.ib - e.ib * a.ia <= 6 * b) by (nonlinear_arith)
        requires -1 <= e.ra <= 1, -1 <= e.rb <= 1, -1 <= e.ia <= 1, -1 <= e.ib <= 1,
            -b <= a.ra <= b, -b <= a.rb <= b, -b <= a.ia <= b, -b <= a.ib <= b, b >= 0;
    assert(-(6 * b) <= e.ra * a.ia + 2 * e.rb * a.ib + e.ia * a.ra + 2 * e.ib * a.rb <= 6 * b) by (nonlinear_arith)
        requires -1 <= e.ra <= 1, -1 <= e.rb <= 1, -1 <= e.ia <= 1, -1 <= e.ib <= 1,
            -b <= a.ra <= b, -b <= a.rb <= b, -b <= a.ia <= b, -b <= a.ib <= b, b >= 0;
    assert(-(6 * b) <= e.ra * a.ib + e.rb * a.ia + e.ia * a.rb + e.ib * a.ra <= 6 * b) by (nonlinear_arith)
        requires -1 <= e.ra <= 1, -1 <= e.rb <= 1, -1 <= e.ia <= 1, -1 <= e.ib <= 1,
            -b <= a.ra <= b, -b <= a.rb <= b, -b <= a.ia <= b, -b <= a.ib <= b, b >= 0;
}

/// Multiplying by the zero amplitude gives the zero amplitude.
pub proof fn lemma_mul_zero(a: CxV)
    ensures cxv_mul(cxv_zero(), a) == cxv_zero(),
{
    let e = cxv_zero();
    assert(e.ra * a.ra == 0 && e.rb * a.rb == 0 && e.ia * a.ia == 0 && e.ib * a.ib == 0
        && e.ra * a.rb == 0 && e.rb * a.ra == 0 && e.ia * a.ib == 0 && e.ib * a.ia == 0
        && e.ra * a.ia == 0 && e.rb * a.ib == 0 && e.ia * a.ra == 0 && e.ib * a.rb == 0
        && e.ra * a.ib == 0 && e.rb * a.ia == 0 && e.ia * a.rb == 0 && e.ib * a.ra == 0) by (nonlinear_arith)
        requires e.ra == 0, e.rb == 0, e.ia == 0, e.ib == 0;
    assert(2 * e.rb * a.rb == 0 && 2 * e.ib * a.ib == 0 && 2 * e.rb * a.ib == 0 && 2 * e.ib * a.rb == 0) by (nonlinear_arith)
        requires e.rb == 0, e.ib == 0;
}

/// Multiplying by one is the identity.
pub proof fn lemma_mul_one(a: CxV)
    ensures cxv_mul(cxv_one(), a) == a,
{
    let e = cxv_one();
    assert(e.ra * a.ra == a.ra && e.ra * a.rb == a.rb && e.ra * a.ia == a.ia && e.ra * a.ib == a.ib) by (nonlinear_arith)
        requires e.ra == 1;
    assert(e.rb * a.rb == 0 && e.ia * a.ia == 0 && e.ib * a.ib == 0 && e.rb * a.ra == 0
        && e.ia * a.ib == 0 && e.ib * a.ia == 0 && e.rb * a.ib == 0 && e.ia * a.ra == 0
        && e.ib * a.rb == 0 && e.rb * a.ia == 0 && e.ia * a.rb == 0 && e.ib * a.ra == 0) by (nonlinear_arith)
        requires e.rb == 0, e.ia == 0, e.ib == 0;
    assert(2 * e.rb * a.rb == 0 && 2 * e.ib * a.ib == 0 && 2 * e.rb * a.ib == 0 && 2 * e.ib * a.rb == 0) by (nonlinear_arith)
        requires e.rb == 0, e.ib == 0;
}

/// Multiplying by minus one negates.
pub proof fn lemma_mul_neg_one(a: CxV)
    ensures cxv_mul(cxv_neg(cxv_one()), a) == cxv_neg(a),
{
    let e = cxv_neg(cxv_one());
    assert(e.ra * a.ra == -a.ra && e.ra * a.rb == -a.rb && e.ra * a.ia == -a.ia && e.ra * a.ib == -a.ib) by (nonlinear_arith)
        requires e.ra == -1;
    assert(e.rb * a.rb == 0 && e.ia * a.ia == 0 && e.ib * a.ib == 0 && e.rb * a.ra == 0
        && e.ia * a.ib == 0 && e.ib * a.ia == 0 && e.rb * a.ib == 0 && e.ia * a.ra == 0
        && e.ib * a.rb == 0 && e.rb * a.ia == 0 && e.ia * a.rb == 0 && e.ib * a.ra == 0) by (nonlinear_arith)
        requires e.rb == 0, e.ia == 0, e.ib == 0;
    assert(2 * e.rb * a.rb == 0 && 2 * e.ib * a.ib == 0 && 2 * e.rb * a.ib == 0 && 2 * e.ib * a.rb == 0) by (nonlinear_arith)
        requires e.rb == 0, e.ib == 0;
}

/// Negation keeps the squared magnitude.
pub proof fn lemma_norm_neg(x: CxV)
    ensures norm_p(cxv_neg(x)) == norm_p(x), norm_q(cxv_neg(x)) == norm_q(x),
{
    let m = cxv_neg(x);
    assert(m.ra * m.ra + 2 * m.rb * m.rb + m.ia * m.ia + 2 * m.ib * m.ib
        == x.ra * x.ra + 2 * x.rb * x.rb + x.ia * x.ia + 2 * x.ib * x.ib) by (nonlinear_arith)
        requires m.ra == -x.ra, m.rb == -x.rb, m.ia == -x.ia, m.ib == -x.ib;
    assert(2 * (m.ra * m.rb + m.ia * m.ib) == 2 * (x.ra * x.rb + x.ia * x.ib)) by (nonlinear_arith)
        requires m.ra == -x.ra, m.rb == -x.rb, m.ia == -x.ia, m.ib == -x.ib;
}

/// Multiplying by i or by -i keeps the squared magnitude.
pub proof fn lemma_norm_mul_i(e: CxV, x: CxV)
    requires e.ra == 0, e.rb == 0, e.ia == 1 || e.ia == -1, e.ib == 0,
    ensures norm_p(cxv_mul(e, x)) == norm_p(x), norm_q(cxv_mul(e, x)) == norm_q(x),
{
    let m = cxv_mul(e, x);
    assert(m.ra == -e.ia * x.ia && m.rb == -e.ia * x.ib && m.ia == e.ia * x.ra && m.ib == e.ia * x.rb) by (nonlinear_arith)
        requires e.ra == 0, e.rb == 0, e.ib == 0, m == cxv_mul(e, x),
            m.ra == e.ra * x.ra + 2 * e.rb * x.rb - e.ia * x.ia - 2 * e.ib * x.ib,
            m.rb == e.ra * x.rb + e.rb * x.ra - e.ia * x.ib - e.ib * x.ia,
            m.ia == e.ra * x.ia + 2 * e.rb * x.ib + e.ia * x.ra + 2 * e.ib * x.rb,
            m.ib == e.ra * x.ib + e.rb * x.ia + e.ia * x.rb + e.ib * x.ra;
    assert(m.ra * m.ra + 2 * m.rb * m.rb + m.ia * m.ia + 2 * m.ib * m.ib
        == x.ra * x.ra + 2 * x.rb * x.rb + x.ia * x.ia + 2 * x.ib * x.ib) by (nonlinear_arith)
        requires m.ra == -e.ia * x.ia, m.rb == -e.ia * x.ib, m.ia == e.ia * x.ra, m.ib == e.ia * x.rb,
            e.ia == 1 || e.ia == -1;
    assert(2 * (m.ra * m.rb + m.ia * m.ib) == 2 * (x.ra * x.rb + x.ia * x.ib)) by (nonlinear_arith)
        requires m.ra == -e.ia * x.ia, m.rb == -e.ia * x.ib, m.ia == e.ia * x.ra, m.ib == e.ia * x.rb,
            e.ia == 1 || e.ia == -1;
}

/// Multiplying by sqrt(2) doubles the squared magnitude.
pub proof fn lemma_norm_mul_sqrt2(e: CxV, x: CxV)
    requires e.ra == 0, e.rb == 1, e.ia == 0, e.ib == 0,
    ensures norm_p(cxv_mul(e, x)) == 2 * norm_p(x), norm_q(cxv_mul(e, x)) == 2 * norm_q(x),
{
    let m = cxv_mul(e, x);
    assert(m.ra == 2 * x.rb && m.rb == x.ra && m.ia == 2 * x.ib && m.ib == x.ia) by (nonlinear_arith)
        requires e.ra == 0, e.rb == 1, e.ia == 0, e.ib == 0,
            m.ra == e.ra * x.ra + 2 * e.rb * x.rb - e.ia * x.ia - 2 * e.ib * x.ib,
            m.rb == e.ra * x.rb + e.rb * x.ra - e.ia * x.ib - e.ib * x.ia,
            m.ia == e.ra * x.ia + 2 * e.rb * x.ib + e.ia * x.ra + 2 * e.ib * x.rb,
            m.ib == e.ra * x.ib + e.rb * x.ia + e.ia * x.rb + e.ib * x.ra;
    assert(m.ra * m.ra + 2 * m.rb * m.rb + m.ia * m.ia + 2 * m.ib * m.ib
        == 2 * (x.ra * x.ra + 2 * x.rb * x.rb + x.ia * x.ia + 2 * x.ib * x.ib)) by (nonlinear_arith)
        requires m.ra == 2 * x.rb, m.rb == x.ra, m.ia == 2 * x.ib, m.ib == x.ia;
    assert(2 * (m.ra * m.rb + m.ia * m.ib) == 2 * (2 * (x.ra * x.rb + x.ia * x.ib))) by (nonlinear_arith)
        requires m.ra == 2 * x.rb, m.rb == x.ra, m.ia == 2 * x.ib, m.ib == x.ia;
}

/// Multiplying by 1 + i doubles the squared magnitude.
pub proof fn lemma_norm_mul_one_plus_i(e: CxV, x: CxV)
    requires e.ra == 1, e.rb == 0, e.ia == 1, e.ib == 0,
    ensures norm_p(cxv_mul(e, x)) == 2 * norm_p(x), norm_q(cxv_mul(e, x)) == 2 * norm_q(x),
{
    let m = cxv_mul(e, x);
    assert(m.ra == x.ra - x.ia && m.rb == x.rb - x.ib && m.ia == x.ia + x.ra && m.ib == x.ib + x.rb) by (nonlinear_arith)
        requires e.ra == 1, e.rb == 0, e.ia == 1, e.ib == 0,
            m.ra == e.ra * x.ra + 2 * e.rb * x.rb - e.ia * x.ia - 2 * e.ib * x.ib,
            m.rb == e.ra * x.rb + e.rb * x.ra - e.ia * x.ib - e.ib * x.ia,
            m.ia == e.ra * x.ia + 2 * e.rb * x.ib + e.ia * x.ra + 2 * e.ib * x.rb,
            m.ib == e.ra * x.ib + e.rb * x.ia + e.ia * x.rb + e.ib * x.ra;
    assert(m.ra * m.ra + 2 * m.rb * m.rb + m.ia * m.ia + 2 * m.ib * m.ib
        == 2 * (x.ra * x.ra + 2 * x.rb * x.rb + x.ia * x.ia + 2 * x.ib * x.ib)) by (nonlinear_arith)
        requires m.ra == x.ra - x.ia, m.rb == x.rb - x.ib, m.ia == x.ia + x.ra, m.ib == x.ib + x.rb;
    assert(2 * (m.ra * m.rb + m.ia * m.ib) == 2 * (2 * (x.ra * x.rb + x.ia * x.ib))) by (nonlinear_arith)
        requires m.ra == x.ra - x.ia, m.rb == x.rb - x.ib, m.ia == x.ia + x.ra, m.ib == x.ib + x.rb;
}

/// The Hadamard pair identity: |x + y|^2 + |x - y|^2 == 2(|x|^2 + |y|^2).
pub proof fn lemma_norm_h_pair(x: CxV, y: CxV)
    ensures
        norm_p(cxv_add(x, y)) + norm_p(cxv_add(x, cxv_neg(y))) == 2 * (norm_p(x) + norm_p(y)),
        norm_q(cxv_add(x, y)) + norm_q(cxv_add(x, cxv_neg(y))) == 2 * (norm_q(x) + norm_q(y)),
{
    let u = cxv_add(x, y);
    let v = cxv_add(x, cxv_neg(y));
    assert(u.ra * u.ra + v.ra * v.ra == 2 * (x.ra * x.ra + y.ra * y.ra)) by (nonlinear_arith)
        requires u.ra == x.ra + y.ra, v.ra == x.ra - y.ra;
    assert(2 * u.rb * u.rb + 2 * v.rb * v.rb == 2 * (2 * x.rb * x.rb) + 2 * (2 * y.rb * y.rb)) by (nonlinear_arith)
        requires u.rb == x.rb + y.rb, v.rb == x.rb - y.rb;
    assert(u.ia * u.ia + v.ia * v.ia == 2 * (x.ia * x.ia + y.ia * y.ia)) by (nonlinear_arith)
        requires u.ia == x.ia + y.ia, v.ia == x.ia - y.ia;
    assert(2 * u.ib * u.ib + 2 * v.ib * v.ib == 2 * (2 * x.ib * x.ib) + 2 * (2 * y.ib * y.ib)) by (nonlinear_arith)
        requires u.ib == x.ib + y.ib, v.ib == x.ib - y.ib;
    assert(u.ra * u.rb + v.ra * v.rb == 2 * (x.ra * x.rb + y.ra * y.rb)) by (nonlinear_arith)
        requires u.ra == x.ra + y.ra, v.ra == x.ra - y.ra, u.rb == x.rb + y.rb, v.rb == x.rb - y.rb;
    assert(u.ia * u.ib + v.ia * v.ib == 2 * (x.ia * x.ib + y.ia * y.ib)) by (nonlinear_arith)
        requires u.ia == x.ia + y.ia, v.ia == x.ia - y.ia, u.ib == x.ib + y.ib, v.ib == x.ib - y.ib;
}

/// An exact complex amplitude, the executable form of `CxV`.
#[derive(Clone, Copy, PartialEq, Eq, Structural, Debug)]
pub struct Cx {
    pub ra: i128,
    pub rb: i128,
    pub ia: i128,
    pub ib: i128,
}

impl View for Cx {
    type V = CxV;

    open spec fn view(&self) -> CxV {
        CxV { ra: self.ra as int, rb: self.rb as int, ia: self.ia as int, ib: self.ib as int }
    }
}

impl Cx {
    pub fn zero() -> (r: Cx)
        ensures r@ == cxv_zero(),
    {
        Cx { ra: 0, rb: 0, ia: 0, ib: 0 }
    }

    pub fn one() -> (r: Cx)
        ensures r@ == cxv_one(),
    {
        Cx { ra: 1, rb: 0, ia: 0, ib: 0 }
    }

    pub fn new(ra: i128, rb: i128, ia: i128, ib: i128) -> (r: Cx)
        ensures r@ == (CxV { ra: ra as int, rb: rb as int, ia: ia as int, ib: ib as int }),
    {
        Cx { ra, rb, ia, ib }
    }

    pub fn is_zero(&self) -> (r: bool)
        ensures r == (self@ == cxv_zero()),
    {
        self.ra == 0 && self.rb == 0 && self.ia == 0 && self.ib == 0
    }

    pub fn add(&self, o: &Cx) -> (r: Cx)
        requires cx_abs_le(self@, add_bound()), cx_abs_le(o@, add_bound()),
        ensures r@ == cxv_add(self@, o@),
    {
        Cx {
            ra: self.ra + o.ra,
            rb: self.rb + o.rb,
            ia: self.ia + o.ia,
            ib: self.ib + o.ib,
        }
    }

    pub fn neg(&self) -> (r: Cx)
        requires cx_abs_le(self@, add_bound()),
        ensures r@ == cxv_neg(self@),
    {
        Cx { ra: -self.ra, rb: -self.rb, ia: -self.ia, ib: -self.ib }
    }

    /// Ring product; the left factor is small (a gate-matrix entry).
    pub fn mul(&self, o: &Cx) -> (r: Cx)
        requires cx_abs_le(self@, 4), cx_abs_le(o@, mul_bound()),
        ensures r@ == cxv_mul(self@, o@),
    {
        proof {
            lemma_mul_abs(self@.ra, o@.ra, 4, mul_bound());
            lemma_mul_abs(self@.ra, o@.rb, 4, mul_bound());
            lemma_mul_abs(self@.ra, o@.ia, 4, mul_bound());
            lemma_mul_abs(self@.ra, o@.ib, 4, mul_bound());
            lemma_mul_abs(self@.rb, o@.ra, 4, mul_bound());
            lemma_mul_abs(self@.rb, o@.rb, 4, mul_bound());
            lemma_mul_abs(self@.rb, o@.ia, 4, mul_bound());
            lemma_mul_abs(self@.rb, o@.ib, 4, mul_bound());
            lemma_mul_abs(self@.ia, o@.ra, 4, mul_bound());
            lemma_mul_abs(self@.ia, o@.rb, 4, mul_bound());
            lemma_mul_abs(self@.ia, o@.ia, 4, mul_bound());
            lemma_mul_abs(self@.ia, o@.ib, 4, mul_bound());
            lemma_mul_abs(self@.ib, o@.ra, 4, mul_bound());
            lemma_mul_abs(self@.ib, o@.rb, 4, mul_bound());
            lemma_mul_abs(self@.ib, o@.ia, 4, mul_bound());
            lemma_mul_abs(self@.ib, o@.ib, 4, mul_bound());
            lemma_mul_abs(2 * self@.rb, o@.rb, 8, mul_bound());
            lemma_mul_abs(2 * self@.rb, o@.ib, 8, mul_bound());
            lemma_mul_abs(2 * self@.ib, o@.ib, 8, mul_bound());
            lemma_mul_abs(2 * self@.ib, o@.rb, 8, mul_bound());
        }
        Cx {
            ra: self.ra * o.ra + 2 * self.rb * o.rb - self.ia * o.ia - 2 * self.ib * o.ib,
            rb: self.ra * o.rb + self.rb * o.ra - self.ia * o.ib - self.ib * o.ia,
            ia: self.ra * o.ia + 2 * self.rb * o.ib + self.ia * o.ra + 2 * self.ib * o.rb,
            ib: self.ra * o.ib + self.rb * o.ia + self.ia * o.rb + self.ib * o.ra,
        }
    }

    /// Ring product of two amplitudes of moderate size (tensor composition).
    pub fn mul_wide(&self, o: &Cx) -> (r: Cx)
        requires cx_abs_le(self@, tensor_bound()), cx_abs_le(o@, tensor_bound()),
        ensures r@ == cxv_mul(self@, o@),
    {
        proof {
            lemma_mul_abs(self@.ra, o@.ra, tensor_bound(), tensor_bound());
            lemma_mul_abs(self@.ra, o@.rb, tensor_bound(), tensor_bound());
            lemma_mul_abs(self@.ra, o@.ia, tensor_bound(), tensor_bound());
            lemma_mul_abs(self@.ra, o@.ib, tensor_bound(), tensor_bound());
            lemma_mul_abs(self@.rb, o@.ra, tensor_bound(), tensor_bound());
            lemma_mul_abs(self@.rb, o@.ia, tensor_bound(), tensor_bound());
            lemma_mul_abs(self@.ia, o@.ra, tensor_bound(), tensor_bound());
            lemma_mul_abs(self@.ia, o@.rb, tensor_bound(), tensor_bound());
            lemma_mul_abs(self@.ia, o@.ia, tensor_bound(), tensor_bound());
            lemma_mul_abs(self@.ia, o@.ib, tensor_bound(), tensor_bound());
            lemma_mul_abs(self@.ib, o@.ia, tensor_bound(), tensor_bound());
            lemma_mul_abs(self@.ib, o@.ra, tensor_bound(), tensor_bound());
            lemma_mul_abs(2 * self@.rb, o@.rb, 2 * tensor_bound(), tensor_bound());
            lemma_mul_abs(2 * self@.rb, o@.ib, 2 * tensor_bound(), tensor_bound());
            lemma_mul_abs(2 * self@.ib, o@.ib, 2 * tensor_bound(), tensor_bound());
            lemma_mul_abs(2 * self@.ib, o@.rb, 2 * tensor_bound(), tensor_bound());
        }
        Cx {
            ra: self.ra * o.ra + 2 * self.rb * o.rb - self.ia * o.ia - 2 * self.ib * o.ib,
            rb: self.ra * o.rb + self.rb * o.ra - self.ia * o.ib - self.ib * o.ia,
            ia: self.ra * o.ia + 2 * self.rb * o.ib + self.ia * o.ra + 2 * self.ib * o.rb,
            ib: self.ra * o.ib + self.rb * o.ia + self.ia * o.rb + self.ib * o.ra,
        }
    }
}

} // verus!
