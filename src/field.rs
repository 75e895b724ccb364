//! Elements of the base field `F_p`, `p = 15 * 2^27 + 1`, and of its degree
//! four extension `F_p[X] / (X^4 + 11)`.
use risc0_zkp_core::fp::Fp as CoreFp;
use risc0_zkp_core::fp4::Fp4 as CoreFp4;
use vstd::prelude::*;

verus! {

/// The modulus of the base field.
pub const P: u32 = 2013265921;

/// An element of the base field, held as its canonical representative.
#[derive(Clone, Copy, Debug, PartialEq, Eq, Structural)]
pub struct Fp {
    pub val: u32,
}

impl Fp {
    /// The representative is canonical: below the modulus.
    pub open spec fn wf(self) -> bool {
        self.val < P
    }

    /// The element of the base field that `x` stands for (`x` reduced
    /// modulo `P`).
    pub fn new(x: u32) -> (r: Fp)
        ensures
            r.val == x % P,
            r.wf(),
    {
        Fp { val: x % P }
    }
}

/// Every element of the sequence is canonical.
pub open spec fn all_wf(s: Seq<Fp>) -> bool {
    forall|i: int| 0 <= i < s.len() ==> (#[trigger] s[i]).wf()
}

/// The base-field element that the integer `v` stands for.
pub open spec fn fp_of(v: int) -> Fp {
    Fp { val: (v % (P as int)) as u32 }
}

/// An element of the extension field `F_p[X] / (X^4 + 11)`, held as the
/// coefficients of `1, X, X^2, X^3`.
#[derive(Clone, Copy, Debug, PartialEq, Eq, Structural)]
pub struct Fp4 {
    pub c0: Fp,
    pub c1: Fp,
    pub c2: Fp,
    pub c3: Fp,
}

/// The value `-11` modulo `P`, by which `X^4` reduces.
pub open spec fn nbeta() -> int {
    P - 11
}

/// Sum in the extension field.
pub open spec fn ext_add(a: Fp4, b: Fp4) -> Fp4 {
    Fp4 {
        c0: fp_of(a.c0.val + b.c0.val),
        c1: fp_of(a.c1.val + b.c1.val),
        c2: fp_of(a.c2.val + b.c2.val),
        c3: fp_of(a.c3.val + b.c3.val),
    }
}

/// Product in the extension field: the product of the two polynomials in
/// `X`, with `X^4` replaced by `-11`.
pub open spec fn ext_mul(a: Fp4, b: Fp4) -> Fp4 {
    let (a0, a1, a2, a3) = (a.c0.val as int, a.c1.val as int, a.c2.val as int, a.c3.val as int);
    let (b0, b1, b2, b3) = (b.c0.val as int, b.c1.val as int, b.c2.val as int, b.c3.val as int);
    Fp4 {
        c0: fp_of(a0 * b0 + nbeta() * (a1 * b3 + a2 * b2 + a3 * b1)),
        c1: fp_of(a0 * b1 + a1 * b0 + nbeta() * (a2 * b3 + a3 * b2)),
        c2: fp_of(a0 * b2 + a1 * b1 + a2 * b0 + nbeta() * (a3 * b3)),
        c3: fp_of(a0 * b3 + a1 * b2 + a2 * b1 + a3 * b0),
    }
}

/// The extension-field element of the base-field value `v`.
pub open spec fn ext_const(v: u32) -> Fp4 {
    Fp4 { c0: Fp { val: v }, c1: Fp { val: 0 }, c2: Fp { val: 0 }, c3: Fp { val: 0 } }
}

impl Fp4 {
    /// All four coefficients are canonical.
    pub open spec fn wf(self) -> bool {
        self.c0.wf() && self.c1.wf() && self.c2.wf() && self.c3.wf()
    }

    /// The element with the given coefficients.
    pub fn new(c0: Fp, c1: Fp, c2: Fp, c3: Fp) -> (r: Fp4)
        ensures
            r == (Fp4 { c0, c1, c2, c3 }),
    {
        Fp4 { c0, c1, c2, c3 }
    }

    /// The additive identity.
    pub fn zero() -> (r: Fp4)
        ensures
            r == ext_const(0),
    {
        Fp4 { c0: Fp { val: 0 }, c1: Fp { val: 0 }, c2: Fp { val: 0 }, c3: Fp { val: 0 } }
    }

    /// The multiplicative identity.
    pub fn one() -> (r: Fp4)
        ensures
            r == ext_const(1),
    {
        Fp4 { c0: Fp { val: 1 }, c1: Fp { val: 0 }, c2: Fp { val: 0 }, c3: Fp { val: 0 } }
    }

    /// Sum in the extension field.
    pub fn add(self, b: Fp4) -> (r: Fp4)
        requires
            self.wf(),
            b.wf(),
        ensures
            r == ext_add(self, b),
            r.wf(),
    {
        fp4_add(self, b)
    }

    /// Product in the extension field.
    pub fn mul(self, b: Fp4) -> (r: Fp4)
        requires
            self.wf(),
            b.wf(),
        ensures
            r == ext_mul(self, b),
            r.wf(),
    {
        fp4_mul(self, b)
    }
}

/// Every element of the sequence is canonical.
pub open spec fn all_wf4(s: Seq<Fp4>) -> bool {
    forall|i: int| 0 <= i < s.len() ==> (#[trigger] s[i]).wf()
}

/// Relies on `Add` for risc0_zkp_core's `Fp4`: coefficientwise addition
/// modulo `P` of canonical coefficients.
#[verifier::external_body]
fn fp4_add(a: Fp4, b: Fp4) -> (r: Fp4)
    requires
        a.wf(),
        b.wf(),
    ensures
        r == ext_add(a, b),
        r.wf(),
{
    let x = CoreFp4::new(CoreFp::new(a.c0.val), CoreFp::new(a.c1.val),
        CoreFp::new(a.c2.val), CoreFp::new(a.c3.val));
    let y = CoreFp4::new(CoreFp::new(b.c0.val), CoreFp::new(b.c1.val),
        CoreFp::new(b.c2.val), CoreFp::new(b.c3.val));
    let e = (x + y).elems().iter().map(|f| Fp { val: u32::from(f) }).collect::<Vec<Fp>>();
    Fp4 { c0: e[0], c1: e[1], c2: e[2], c3: e[3] }
}

/// Relies on `Mul` for risc0_zkp_core's `Fp4`: the product of the two
/// polynomials reduced by `X^4 = -11`, each coefficient reduced modulo `P`.
#[verifier::external_body]
fn fp4_mul(a: Fp4, b: Fp4) -> (r: Fp4)
    requires
        a.wf(),
        b.wf(),
    ensures
        r == ext_mul(a, b),
        r.wf(),
{
    let x = CoreFp4::new(CoreFp::new(a.c0.val), CoreFp::new(a.c1.val),
        CoreFp::new(a.c2.val), CoreFp::new(a.c3.val));
    let y = CoreFp4::new(CoreFp::new(b.c0.val), CoreFp::new(b.c1.val),
        CoreFp::new(b.c2.val), CoreFp::new(b.c3.val));
    let e = (x * y).elems().iter().map(|f| Fp { val: u32::from(f) }).collect::<Vec<Fp>>();
    Fp4 { c0: e[0], c1: e[1], c2: e[2], c3: e[3] }
}

/// `u0 * k0 + u1 * k1 + u2 * k2 + u3 * k3`.
pub open spec fn lin(u0: int, u1: int, u2: int, u3: int, k0: int, k1: int, k2: int, k3: int) -> int {
    u0 * k0 + u1 * k1 + u2 * k2 + u3 * k3
}

proof fn lemma_term(x: int, y: int, q: int, k: int, p: int)
    requires
        x == y + p * q,
    ensures
        x * k == y * k + p * (q * k),
{
    assert(x * k == y * k + p * (q * k)) by (nonlinear_arith)
        requires
            x == y + p * q,
    ;
}

proof fn lemma_dist4(p: int, a: int, b: int, c: int, d: int)
    ensures
        p * (a + b + c + d) == p * a + p * b + p * c + p * d,
{
    assert(p * (a + b + c + d) == p * a + p * b + p * c + p * d) by (nonlinear_arith);
}

proof fn lemma_dist3(p: int, a: int, b: int, c: int)
    ensures
        p * (a + b + c) == p * a + p * b + p * c,
{
    assert(p * (a + b + c) == p * a + p * b + p * c) by (nonlinear_arith);
}

proof fn lemma_dist2(p: int, a: int, b: int)
    ensures
        p * (a + b) == p * a + p * b,
{
    assert(p * (a + b) == p * a + p * b) by (nonlinear_arith);
}

proof fn lemma_swap(n: int, u: int, m: int)
    ensures
        n * (u * m) == u * (n * m),
{
    assert(n * (u * m) == u * (n * m)) by (nonlinear_arith);
}

proof fn lemma_lin_congruent(
    x0: int,
    x1: int,
    x2: int,
    x3: int,
    y0: int,
    y1: int,
    y2: int,
    y3: int,
    k0: int,
    k1: int,
    k2: int,
    k3: int,
)
    requires
        x0 % (P as int) == y0 % (P as int),
        x1 % (P as int) == y1 % (P as int),
        x2 % (P as int) == y2 % (P as int),
        x3 % (P as int) == y3 % (P as int),
    ensures
        lin(x0, x1, x2, x3, k0, k1, k2, k3) % (P as int) == lin(y0, y1, y2, y3, k0, k1, k2, k3) % (
        P as int),
{
    let p = P as int;
    vstd::arithmetic::div_mod::lemma_fundamental_div_mod(x0, p);
    vstd::arithmetic::div_mod::lemma_fundamental_div_mod(x1, p);
    vstd::arithmetic::div_mod::lemma_fundamental_div_mod(x2, p);
    vstd::arithmetic::div_mod::lemma_fundamental_div_mod(x3, p);
    vstd::arithmetic::div_mod::lemma_fundamental_div_mod(y0, p);
    vstd::arithmetic::div_mod::lemma_fundamental_div_mod(y1, p);
    vstd::arithmetic::div_mod::lemma_fundamental_div_mod(y2, p);
    vstd::arithmetic::div_mod::lemma_fundamental_div_mod(y3, p);
    let (q0, q1, q2, q3) = (x0 / p - y0 / p, x1 / p - y1 / p, x2 / p - y2 / p, x3 / p - y3 / p);
    let q = q0 * k0 + q1 * k1 + q2 * k2 + q3 * k3;
    assert(x0 == y0 + p * q0);
    assert(x1 == y1 + p * q1);
    assert(x2 == y2 + p * q2);
    assert(x3 == y3 + p * q3);
    lemma_term(x0, y0, q0, k0, p);
    lemma_term(x1, y1, q1, k1, p);
    lemma_term(x2, y2, q2, k2, p);
    lemma_term(x3, y3, q3, k3, p);
    lemma_dist4(p, q0 * k0, q1 * k1, q2 * k2, q3 * k3);
    assert(lin(x0, x1, x2, x3, k0, k1, k2, k3) == p * q + lin(y0, y1, y2, y3, k0, k1, k2, k3));
    vstd::arithmetic::div_mod::lemma_mod_multiples_vanish(q, lin(y0, y1, y2, y3, k0, k1, k2, k3), p);
}

proof fn lemma_mul_lin(u: Fp4, m: Fp4)
    ensures
        ({
            let (u0, u1, u2, u3) = (u.c0.val as int, u.c1.val as int, u.c2.val as int, u.c3.val as int);
            let (m0, m1, m2, m3) = (m.c0.val as int, m.c1.val as int, m.c2.val as int, m.c3.val as int);
            let nb = nbeta();
            &&& ext_mul(u, m).c0 == fp_of(lin(u0, u1, u2, u3, m0, nb * m3, nb * m2, nb * m1))
            &&& ext_mul(u, m).c1 == fp_of(lin(u0, u1, u2, u3, m1, m0, nb * m3, nb * m2))
            &&& ext_mul(u, m).c2 == fp_of(lin(u0, u1, u2, u3, m2, m1, m0, nb * m3))
            &&& ext_mul(u, m).c3 == fp_of(lin(u0, u1, u2, u3, m3, m2, m1, m0))
        }),
{
    let (u0, u1, u2, u3) = (u.c0.val as int, u.c1.val as int, u.c2.val as int, u.c3.val as int);
    let (m0, m1, m2, m3) = (m.c0.val as int, m.c1.val as int, m.c2.val as int, m.c3.val as int);
    let nb = nbeta();
    lemma_dist3(nb, u1 * m3, u2 * m2, u3 * m1);
    lemma_swap(nb, u1, m3);
    lemma_swap(nb, u2, m2);
    lemma_swap(nb, u3, m1);
    lemma_dist2(nb, u2 * m3, u3 * m2);
    lemma_swap(nb, u2, m3);
    lemma_swap(nb, u3, m2);
    lemma_swap(nb, u3, m3);
}

proof fn lemma_lin_distrib(
    a0: int,
    a1: int,
    a2: int,
    a3: int,
    b0: int,
    b1: int,
    b2: int,
    b3: int,
    k0: int,
    k1: int,
    k2: int,
    k3: int,
)
    ensures
        ({
            let p = P as int;
            lin((a0 + b0) % p, (a1 + b1) % p, (a2 + b2) % p, (a3 + b3) % p, k0, k1, k2, k3) % p == (
            lin(a0, a1, a2, a3, k0, k1, k2, k3) % p + lin(b0, b1, b2, b3, k0, k1, k2, k3) % p) % p
        }),
{
    let p = P as int;
    vstd::arithmetic::div_mod::lemma_mod_twice(a0 + b0, p);
    vstd::arithmetic::div_mod::lemma_mod_twice(a1 + b1, p);
    vstd::arithmetic::div_mod::lemma_mod_twice(a2 + b2, p);
    vstd::arithmetic::div_mod::lemma_mod_twice(a3 + b3, p);
    lemma_lin_congruent(
        (a0 + b0) % p,
        (a1 + b1) % p,
        (a2 + b2) % p,
        (a3 + b3) % p,
        a0 + b0,
        a1 + b1,
        a2 + b2,
        a3 + b3,
        k0,
        k1,
        k2,
        k3,
    );
    vstd::arithmetic::mul::lemma_mul_is_distributive_add_other_way(k0, a0, b0);
    vstd::arithmetic::mul::lemma_mul_is_distributive_add_other_way(k1, a1, b1);
    vstd::arithmetic::mul::lemma_mul_is_distributive_add_other_way(k2, a2, b2);
    vstd::arithmetic::mul::lemma_mul_is_distributive_add_other_way(k3, a3, b3);
    assert(lin(a0 + b0, a1 + b1, a2 + b2, a3 + b3, k0, k1, k2, k3) == lin(a0, a1, a2, a3, k0, k1, k2, k3)
        + lin(b0, b1, b2, b3, k0, k1, k2, k3));
    vstd::arithmetic::div_mod::lemma_add_mod_noop(
        lin(a0, a1, a2, a3, k0, k1, k2, k3),
        lin(b0, b1, b2, b3, k0, k1, k2, k3),
        p,
    );
}

/// Multiplication distributes over addition in the extension field.
pub proof fn lemma_ext_distrib(a: Fp4, b: Fp4, m: Fp4)
    ensures
        ext_mul(ext_add(a, b), m) == ext_add(ext_mul(a, m), ext_mul(b, m)),
{
    let (a0, a1, a2, a3) = (a.c0.val as int, a.c1.val as int, a.c2.val as int, a.c3.val as int);
    let (b0, b1, b2, b3) = (b.c0.val as int, b.c1.val as int, b.c2.val as int, b.c3.val as int);
    let (m0, m1, m2, m3) = (m.c0.val as int, m.c1.val as int, m.c2.val as int, m.c3.val as int);
    let nb = nbeta();
    lemma_mul_lin(ext_add(a, b), m);
    lemma_mul_lin(a, m);
    lemma_mul_lin(b, m);
    lemma_lin_distrib(a0, a1, a2, a3, b0, b1, b2, b3, m0, nb * m3, nb * m2, nb * m1);
    lemma_lin_distrib(a0, a1, a2, a3, b0, b1, b2, b3, m1, m0, nb * m3, nb * m2);
    lemma_lin_distrib(a0, a1, a2, a3, b0, b1, b2, b3, m2, m1, m0, nb * m3);
    lemma_lin_distrib(a0, a1, a2, a3, b0, b1, b2, b3, m3, m2, m1, m0);
}

proof fn lemma_add4_mod(s: int, t: int, u: int, v: int)
    ensures
        ((s + t) % (P as int) + (u + v) % (P as int)) % (P as int) == ((s + u) % (P as int) + (t
            + v) % (P as int)) % (P as int),
{
    let p = P as int;
    vstd::arithmetic::div_mod::lemma_add_mod_noop(s + t, u + v, p);
    vstd::arithmetic::div_mod::lemma_add_mod_noop(s + u, t + v, p);
}

/// Sums of sums may be regrouped: `(s + t) + (u + v) == (s + u) + (t + v)`.
pub proof fn lemma_ext_add_regroup(s: Fp4, t: Fp4, u: Fp4, v: Fp4)
    ensures
        ext_add(ext_add(s, t), ext_add(u, v)) == ext_add(ext_add(s, u), ext_add(t, v)),
{
    lemma_add4_mod(s.c0.val as int, t.c0.val as int, u.c0.val as int, v.c0.val as int);
    lemma_add4_mod(s.c1.val as int, t.c1.val as int, u.c1.val as int, v.c1.val as int);
    lemma_add4_mod(s.c2.val as int, t.c2.val as int, u.c2.val as int, v.c2.val as int);
    lemma_add4_mod(s.c3.val as int, t.c3.val as int, u.c3.val as int, v.c3.val as int);
}

/// Zero is a left identity of addition on canonical elements.
pub proof fn lemma_ext_add_zero(c: Fp4)
    requires
        c.wf(),
    ensures
        ext_add(ext_const(0), c) == c,
{
    vstd::arithmetic::div_mod::lemma_small_mod(c.c0.val as nat, P as nat);
    vstd::arithmetic::div_mod::lemma_small_mod(c.c1.val as nat, P as nat);
    vstd::arithmetic::div_mod::lemma_small_mod(c.c2.val as nat, P as nat);
    vstd::arithmetic::div_mod::lemma_small_mod(c.c3.val as nat, P as nat);
}

/// One is an identity of multiplication on canonical elements.
pub proof fn lemma_ext_mul_one(c: Fp4)
    requires
        c.wf(),
    ensures
        ext_mul(c, ext_const(1)) == c,
        ext_mul(ext_const(1), c) == c,
{
    vstd::arithmetic::div_mod::lemma_small_mod(c.c0.val as nat, P as nat);
    vstd::arithmetic::div_mod::lemma_small_mod(c.c1.val as nat, P as nat);
    vstd::arithmetic::div_mod::lemma_small_mod(c.c2.val as nat, P as nat);
    vstd::arithmetic::div_mod::lemma_small_mod(c.c3.val as nat, P as nat);
}

} // verus!
