//! A group of polynomials of one size, their evaluations over a domain
//! `INV_RATE` times larger, and a Merkle commitment to those evaluations.
use crate::field::{Fp, all_wf};
use crate::merkle::MerkleTreeProver;
use crate::{INV_RATE, QUERIES, VerifyError, log2_ceil};
use risc0_zkp_core::fp::Fp as CoreFp;
use vstd::arithmetic::power2::{pow2, lemma_pow2_unfold, lemma_pow2_strictly_increases, lemma2_to64};
use vstd::prelude::*;

verus! {

/// The evaluations over the domain of a polynomial that the transform takes
/// in bit-reversed coefficient order, with the first `expand_bits` layers
/// of butterflies left out.
pub uninterp spec fn ntt_eval_of(io: Seq<Fp>, expand_bits: nat) -> Seq<Fp>;

/// Relies on risc0_zkp_core::ntt::evaluate_ntt: an in-place forward
/// transform of a power-of-two buffer of at most `2^27` elements, built from
/// additions and multiplications in the field, so it keeps the length and
/// gives canonical elements.
#[verifier::external_body]
fn evaluate_ntt(io: &mut Vec<Fp>, expand_bits: usize)
    requires
        exists|n: nat| n <= 27 && pow2(n) == old(io)@.len(),
        all_wf(old(io)@),
    ensures
        final(io)@ == ntt_eval_of(old(io)@, expand_bits as nat),
        final(io)@.len() == old(io)@.len(),
        all_wf(final(io)@),
{
    let mut buf: Vec<CoreFp> = io.iter().map(|x| CoreFp::new(x.val)).collect();
    risc0_zkp_core::ntt::evaluate_ntt(&mut buf, expand_bits);
    *io = buf.iter().map(|x| Fp { val: u32::from(x) }).collect();
}

/// The `n`-bit index `i` with its bits in reverse order.
pub open spec fn bit_rev(i: nat, n: nat) -> nat
    decreases n,
{
    if n == 0 {
        0
    } else {
        (i % 2) * pow2((n - 1) as nat) + bit_rev(i / 2, (n - 1) as nat)
    }
}

/// Relies on risc0_zkp_core::ntt::bit_reverse: for a buffer of `2^n`
/// elements, `n >= 1`, swaps each element with the one at its bit-reversed
/// index.
#[verifier::external_body]
fn bit_reverse(io: &mut Vec<Fp>, n: usize)
    requires
        1 <= n <= 31,
        old(io)@.len() == pow2(n as nat),
    ensures
        final(io)@.len() == old(io)@.len(),
        forall|i: int|
            0 <= i < old(io)@.len() ==> #[trigger] final(io)@[i] == old(io)@[bit_rev(
                i as nat,
                n as nat,
            ) as int],
{
    risc0_zkp_core::ntt::bit_reverse(io.as_mut_slice());
}

/// The base two logarithm of a power of two.
pub open spec fn log2_of(n: nat) -> nat {
    choose|k: nat| pow2(k) == n
}

/// The elements of `s`, a power-of-two length, in bit-reversed index order.
pub open spec fn bit_reversed(s: Seq<Fp>) -> Seq<Fp> {
    Seq::new(s.len(), |i: int| s[bit_rev(i as nat, log2_of(s.len())) as int])
}

/// Polynomial `p` of a buffer of polynomials with `len` elements each.
pub open spec fn poly_at(s: Seq<Fp>, len: nat, p: int) -> Seq<Fp> {
    s.subrange(p * len, (p + 1) * len)
}

/// The `size` coefficients of a polynomial, each repeated `INV_RATE` times:
/// with the first `log2(INV_RATE)` butterfly layers left out, the transform
/// of this buffer gives the evaluations of the zero-padded polynomial.
pub open spec fn expanded(c: Seq<Fp>) -> Seq<Fp> {
    Seq::new(c.len() * 4, |i: int| c[i / 4])
}

/// Polynomial sizes that a group supports: a power of two whose
/// evaluation domain, `INV_RATE` times larger, the transform can handle.
pub open spec fn is_poly_size(size: nat) -> bool {
    exists|n: nat| n <= 27 && pow2(n) == 4 * size
}

proof fn lemma_pow2_injective(a: nat, b: nat)
    requires
        pow2(a) == pow2(b),
    ensures
        a == b,
{
    if a < b {
        lemma_pow2_strictly_increases(a, b);
    } else if b < a {
        lemma_pow2_strictly_increases(b, a);
    }
}

/// A group of `count` polynomials of `size` coefficients each, their
/// evaluations over a domain of `size * INV_RATE` points, and a Merkle tree
/// whose row `i` holds every polynomial's value at point `i`.
pub struct PolyGroup {
    /// The coefficients, polynomial after polynomial, each polynomial's in
    /// bit-reversed order.
    pub coeffs: Vec<Fp>,
    pub count: usize,
    pub size: usize,
    pub domain: usize,
    /// The evaluations, polynomial after polynomial.
    pub evaluated: Vec<Fp>,
    pub merkle: MerkleTreeProver,
}

impl PolyGroup {
    /// Builds the group from `count` polynomials of `size` coefficients
    /// each, stored one after the other. Fails when `count` is zero, the
    /// buffer does not hold `count * size` coefficients, or `size` is not a
    /// power of two whose domain the transform can handle.
    pub fn new(coeffs: Vec<Fp>, count: usize, size: usize) -> (r: Result<PolyGroup, VerifyError>)
        requires
            all_wf(coeffs@),
            coeffs@.len() * 4 <= usize::MAX,
        ensures
            r.is_ok() <==> count >= 1 && coeffs@.len() == count * size && is_poly_size(size as nat),
            r.is_err() ==> r == Err::<PolyGroup, VerifyError>(VerifyError::ConfigurationError),
            r.is_ok() ==> {
                let g = r.unwrap();
                &&& g.count == count
                &&& g.size == size
                &&& g.domain == size * INV_RATE
                &&& g.evaluated@.len() == count * g.domain
                &&& g.coeffs@.len() == coeffs@.len()
                &&& forall|p: int|
                    0 <= p < count ==> #[trigger] poly_at(g.evaluated@, g.domain as nat, p)
                        == ntt_eval_of(expanded(poly_at(coeffs@, size as nat, p)), 2)
                &&& forall|p: int|
                    0 <= p < count ==> #[trigger] poly_at(g.coeffs@, size as nat, p)
                        == bit_reversed(poly_at(coeffs@, size as nat, p))
                &&& g.merkle.wf()
                &&& g.merkle.matrix@ == g.evaluated@
                &&& g.merkle.params.row_size == g.domain
                &&& g.merkle.params.col_size == count
                &&& g.merkle.params.queries == QUERIES
            },
    {
        if count == 0 || coeffs.len() % count != 0 || coeffs.len() / count != size {
            proof {
                if count >= 1 && coeffs@.len() == count * size {
                    vstd::arithmetic::mul::lemma_mul_is_commutative(size as int, count as int);
                    vstd::arithmetic::div_mod::lemma_div_multiples_vanish(size as int, count as int);
                    vstd::arithmetic::div_mod::lemma_mod_multiples_basic(size as int, count as int);
                }
            }
            return Err(VerifyError::ConfigurationError);
        }
        proof {
            vstd::arithmetic::div_mod::lemma_fundamental_div_mod(coeffs@.len() as int, count as int);
            vstd::arithmetic::mul::lemma_mul_is_commutative(size as int, count as int);
            assert(size <= coeffs@.len()) by (nonlinear_arith)
                requires
                    coeffs@.len() == count * size,
                    count >= 1,
            ;
        }
        let domain = size * INV_RATE;
        let params = match crate::merkle::MerkleTreeParams::new(domain, count, QUERIES) {
            Ok(p) => p,
            Err(e) => {
                proof {
                    assert forall|n: nat| n <= 27 implies pow2(n) != 4 * size by {
                        lemma2_to64();
                        if n < 27 {
                            lemma_pow2_strictly_increases(n, 27);
                        }
                    }
                }
                return Err(e);
            },
        };
        if params.layers > 27 {
            proof {
                assert forall|n: nat| n <= 27 implies pow2(n) != 4 * size by {
                    if pow2(n) == 4 * size {
                        lemma_pow2_injective(n, params.layers as nat);
                    }
                }
            }
            return Err(VerifyError::ConfigurationError);
        }
        let bits = log2_ceil(INV_RATE);
        proof {
            lemma2_to64();
            if bits > 2 {
                lemma_pow2_strictly_increases(2, (bits - 1) as nat);
            }
            if bits < 2 {
                if bits == 1 {
                } else {
                }
            }
            assert(bits == 2);
            assert(pow2(params.layers as nat) == domain);
            vstd::arithmetic::power2::lemma_pow2_pos(params.layers as nat);
        }
        let mut evaluated: Vec<Fp> = Vec::new();
        let mut p: usize = 0;
        while p < count
            invariant
                p <= count,
                coeffs@.len() == count * size,
                coeffs.len() * 4 <= usize::MAX,
                all_wf(coeffs@),
                domain == size * 4,
                size >= 1,
                bits == 2,
                params.layers <= 27,
                pow2(params.layers as nat) == domain,
                evaluated@.len() == p * domain,
                all_wf(evaluated@),
                forall|q: int|
                    0 <= q < p ==> #[trigger] poly_at(evaluated@, domain as nat, q)
                        == ntt_eval_of(expanded(poly_at(coeffs@, size as nat, q)), 2),
            decreases count - p,
        {
            let ghost c = poly_at(coeffs@, size as nat, p as int);
            proof {
                crate::merkle::lemma_matrix_index(size as int, count as int, 0, p as int);
                assert(p * size + size <= count * size) by (nonlinear_arith)
                    requires
                        p < count,
                ;
                assert((p + 1) * size == p * size + size) by (nonlinear_arith);
                assert(c.len() == size);
            }
            let mut poly: Vec<Fp> = Vec::new();
            let mut i: usize = 0;
            while i < domain
                invariant
                    i <= domain,
                    p < count,
                    domain == size * 4,
                    coeffs.len() == count * size,
                    p * size + size <= count * size,
                    c == poly_at(coeffs@, size as nat, p as int),
                    c.len() == size,
                    (p + 1) * size == p * size + size,
                    all_wf(coeffs@),
                    poly@ == expanded(c).subrange(0, i as int),
                decreases domain - i,
            {
                assert(c[(i / 4) as int] == coeffs@[p * size + i / 4]);
                poly.push(coeffs[p * size + i / 4]);
                i = i + 1;
                assert(poly@ =~= expanded(c).subrange(0, i as int));
            }
            assert(poly@ =~= expanded(c));
            evaluate_ntt(&mut poly, bits);
            let ghost before = evaluated@;
            let mut i: usize = 0;
            while i < domain
                invariant
                    i <= domain,
                    poly@.len() == domain,
                    all_wf(poly@),
                    all_wf(before),
                    evaluated@ == before + poly@.subrange(0, i as int),
                decreases domain - i,
            {
                evaluated.push(poly[i]);
                i = i + 1;
                assert(evaluated@ =~= before + poly@.subrange(0, i as int));
            }
            proof {
                assert(poly@.subrange(0, domain as int) =~= poly@);
                assert(evaluated@.len() == (p + 1) * domain) by (nonlinear_arith)
                    requires
                        evaluated@.len() == p * domain + domain,
                ;
                assert forall|q: int|
                    0 <= q < p + 1 implies #[trigger] poly_at(evaluated@, domain as nat, q)
                        == ntt_eval_of(expanded(poly_at(coeffs@, size as nat, q)), 2) by {
                    assert(0 <= q * domain) by (nonlinear_arith)
                        requires
                            0 <= q,
                    ;
                    assert((q + 1) * domain == q * domain + domain) by (nonlinear_arith);
                    if q < p {
                        assert((q + 1) * domain <= p * domain) by (nonlinear_arith)
                            requires
                                q + 1 <= p,
                        ;
                        assert(poly_at(evaluated@, domain as nat, q) =~= poly_at(before, domain as nat, q));
                    } else {
                        assert(poly_at(evaluated@, domain as nat, q) =~= poly@);
                    }
                }
            }
            p = p + 1;
        }
        let ghost lg = (params.layers - 2) as nat;
        proof {
            if params.layers < 2 {
                vstd::arithmetic::power2::lemma_pow2_pos(params.layers as nat);
                if params.layers == 1 {
                    lemma_pow2_unfold(1);
                }
                assert(false);
            }
            lemma_pow2_unfold(params.layers as nat);
            lemma_pow2_unfold((params.layers - 1) as nat);
            assert(pow2(lg) == size);
            let k = choose|k: nat| pow2(k) == size as nat;
            lemma_pow2_injective(k, lg);
            assert(log2_of(size as nat) == lg);
        }
        let mut rev: Vec<Fp> = Vec::new();
        let mut p: usize = 0;
        while p < count
            invariant
                p <= count,
                coeffs.len() == count * size,
                size >= 1,
                pow2(lg) == size,
                lg == params.layers - 2,
                params.layers <= 27,
                log2_of(size as nat) == lg,
                rev@.len() == p * size,
                forall|q: int|
                    0 <= q < p ==> #[trigger] poly_at(rev@, size as nat, q) == bit_reversed(
                        poly_at(coeffs@, size as nat, q),
                    ),
            decreases count - p,
        {
            let ghost c = poly_at(coeffs@, size as nat, p as int);
            proof {
                assert(p * size + size <= count * size) by (nonlinear_arith)
                    requires
                        p < count,
                ;
                assert((p + 1) * size == p * size + size) by (nonlinear_arith);
                assert(0 <= p * size) by (nonlinear_arith);
            }
            let mut poly: Vec<Fp> = Vec::new();
            let mut i: usize = 0;
            while i < size
                invariant
                    i <= size,
                    p < count,
                    coeffs.len() == count * size,
                    p * size + size <= count * size,
                    (p + 1) * size == p * size + size,
                    0 <= p * size,
                    c == poly_at(coeffs@, size as nat, p as int),
                    poly@ == c.subrange(0, i as int),
                decreases size - i,
            {
                poly.push(coeffs[p * size + i]);
                i = i + 1;
                assert(poly@ =~= c.subrange(0, i as int));
            }
            assert(poly@ =~= c);
            proof {
                lemma2_to64();
                if lg > 0 {
                    lemma_pow2_strictly_increases(0, lg);
                }
            }
            if size >= 2 {
                bit_reverse(&mut poly, params.layers - 2);
                assert(poly@ =~= bit_reversed(c));
            } else {
                assert(lg == 0);
                assert(bit_rev(0, 0) == 0);
                assert(poly@ =~= bit_reversed(c));
            }
            let ghost before = rev@;
            let mut i: usize = 0;
            while i < size
                invariant
                    i <= size,
                    poly@.len() == size,
                    rev@ == before + poly@.subrange(0, i as int),
                decreases size - i,
            {
                rev.push(poly[i]);
                i = i + 1;
                assert(rev@ =~= before + poly@.subrange(0, i as int));
            }
            proof {
                assert(poly@.subrange(0, size as int) =~= poly@);
                assert(rev@.len() == (p + 1) * size) by (nonlinear_arith)
                    requires
                        rev@.len() == p * size + size,
                ;
                assert forall|q: int|
                    0 <= q < p + 1 implies #[trigger] poly_at(rev@, size as nat, q)
                        == bit_reversed(poly_at(coeffs@, size as nat, q)) by {
                    assert(0 <= q * size) by (nonlinear_arith)
                        requires
                            0 <= q,
                    ;
                    assert((q + 1) * size == q * size + size) by (nonlinear_arith);
                    if q < p {
                        assert((q + 1) * size <= p * size) by (nonlinear_arith)
                            requires
                                q + 1 <= p,
                        ;
                        assert(poly_at(rev@, size as nat, q) =~= poly_at(before, size as nat, q));
                    } else {
                        assert(poly_at(rev@, size as nat, q) =~= poly@);
                    }
                }
            }
            p = p + 1;
        }
        proof {
            vstd::arithmetic::mul::lemma_mul_is_commutative(domain as int, count as int);
            assert(rev@.len() == coeffs@.len());
        }
        let merkle = match MerkleTreeProver::new(&evaluated, domain, count, QUERIES) {
            Ok(m) => m,
            Err(e) => {
                return Err(e);
            },
        };
        proof {
            assert(is_poly_size(size as nat));
        }
        Ok(PolyGroup { coeffs: rev, count, size, domain, evaluated, merkle })
    }
}

} // verus!
