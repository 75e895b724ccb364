//! Evaluation of polynomials with extension-field coefficients.
use crate::field::{
    Fp4, all_wf4, ext_add, ext_mul, ext_const, lemma_ext_distrib, lemma_ext_add_regroup,
    lemma_ext_add_zero, lemma_ext_mul_one,
};
use vstd::prelude::*;

verus! {

/// `x` to the power `n`, as repeated multiplication by `x`.
pub open spec fn ext_pow(x: Fp4, n: nat) -> Fp4
    decreases n,
{
    if n == 0 {
        ext_const(1)
    } else {
        ext_mul(ext_pow(x, (n - 1) as nat), x)
    }
}

/// The sum of the first `n` terms `c[i] * x^i`, lowest degree first.
pub open spec fn eval_prefix(c: Seq<Fp4>, n: nat, x: Fp4) -> Fp4
    decreases n,
{
    if n == 0 {
        ext_const(0)
    } else {
        ext_add(eval_prefix(c, (n - 1) as nat, x), ext_mul(c[n - 1], ext_pow(x, (n - 1) as nat)))
    }
}

/// The value at `x` of the polynomial with coefficients `c`.
pub open spec fn poly_value(c: Seq<Fp4>, x: Fp4) -> Fp4 {
    eval_prefix(c, c.len(), x)
}

/// Evaluates the polynomial with coefficients `coeffs` (lowest degree first)
/// at `x`.
pub fn poly_eval(coeffs: &[Fp4], x: Fp4) -> (r: Fp4)
    requires
        all_wf4(coeffs@),
        x.wf(),
    ensures
        r == poly_value(coeffs@, x),
        r.wf(),
{
    let mut mul = Fp4::one();
    let mut tot = Fp4::zero();
    let mut i: usize = 0;
    while i < coeffs.len()
        invariant
            i <= coeffs@.len(),
            all_wf4(coeffs@),
            x.wf(),
            mul == ext_pow(x, i as nat),
            tot == eval_prefix(coeffs@, i as nat, x),
            mul.wf(),
            tot.wf(),
        decreases coeffs@.len() - i,
    {
        tot = tot.add(coeffs[i].mul(mul));
        mul = mul.mul(x);
        i = i + 1;
    }
    tot
}

/// The coefficientwise sum of two coefficient sequences.
pub open spec fn coeffs_add(a: Seq<Fp4>, b: Seq<Fp4>) -> Seq<Fp4> {
    Seq::new(a.len(), |i: int| ext_add(a[i], b[i]))
}

proof fn lemma_prefix_linear(a: Seq<Fp4>, b: Seq<Fp4>, n: nat, x: Fp4)
    requires
        a.len() == b.len(),
        n <= a.len(),
    ensures
        eval_prefix(coeffs_add(a, b), n, x) == ext_add(eval_prefix(a, n, x), eval_prefix(b, n, x)),
    decreases n,
{
    if n > 0 {
        let k = (n - 1) as nat;
        lemma_prefix_linear(a, b, k, x);
        let m = ext_pow(x, k);
        lemma_ext_distrib(a[k as int], b[k as int], m);
        lemma_ext_add_regroup(
            eval_prefix(a, k, x),
            eval_prefix(b, k, x),
            ext_mul(a[k as int], m),
            ext_mul(b[k as int], m),
        );
    }
}

/// Evaluation is linear in the coefficients: the value of the coefficientwise
/// sum of two polynomials of one length is the sum of their values.
pub proof fn lemma_poly_eval_linear(a: Seq<Fp4>, b: Seq<Fp4>, x: Fp4)
    requires
        a.len() == b.len(),
    ensures
        poly_value(coeffs_add(a, b), x) == ext_add(poly_value(a, x), poly_value(b, x)),
{
    lemma_prefix_linear(a, b, a.len(), x);
}

/// A constant polynomial has its constant as value everywhere.
pub proof fn lemma_poly_eval_constant(c: Fp4, x: Fp4)
    requires
        c.wf(),
    ensures
        poly_value(seq![c], x) == c,
{
    lemma_ext_mul_one(c);
    lemma_ext_add_zero(c);
    let s = seq![c];
    assert(s[0] == c);
    assert(ext_pow(x, 0) == ext_const(1));
    assert(eval_prefix(s, 0, x) == ext_const(0));
    assert(eval_prefix(s, 1, x) == ext_add(ext_const(0), ext_mul(c, ext_const(1))));
}

/// A polynomial with three coefficients has the value
/// `c0 + c1 * x + c2 * x^2`.
pub proof fn lemma_poly_eval_quadratic(c0: Fp4, c1: Fp4, c2: Fp4, x: Fp4)
    requires
        c0.wf(),
        c1.wf(),
        c2.wf(),
        x.wf(),
    ensures
        poly_value(seq![c0, c1, c2], x) == ext_add(
            ext_add(c0, ext_mul(c1, x)),
            ext_mul(c2, ext_mul(x, x)),
        ),
{
    let c = seq![c0, c1, c2];
    lemma_ext_mul_one(c0);
    lemma_ext_mul_one(x);
    lemma_ext_add_zero(c0);
    assert(c[0] == c0 && c[1] == c1 && c[2] == c2);
    assert(ext_pow(x, 0) == ext_const(1));
    assert(ext_pow(x, 1) == ext_mul(ext_pow(x, 0), x));
    assert(ext_pow(x, 1) == x);
    assert(ext_pow(x, 2) == ext_mul(ext_pow(x, 1), x));
    assert(eval_prefix(c, 0, x) == ext_const(0));
    assert(eval_prefix(c, 1, x) == ext_add(ext_const(0), ext_mul(c0, ext_const(1))));
    assert(eval_prefix(c, 1, x) == c0);
    assert(eval_prefix(c, 2, x) == ext_add(c0, ext_mul(c1, x)));
    assert(eval_prefix(c, 3, x) == ext_add(eval_prefix(c, 2, x), ext_mul(c2, ext_pow(x, 2))));
}

} // verus!
