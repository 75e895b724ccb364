use risc0_zkp_verify::field::{Fp, Fp4, P};
use risc0_zkp_verify::poly::poly_eval;
use risc0_zkp_verify::poly_group::PolyGroup;
use risc0_zkp_verify::VerifyError;

fn base(v: u32) -> Fp4 {
    Fp4::new(Fp::new(v), Fp::new(0), Fp::new(0), Fp::new(0))
}

fn ext(a: u32, b: u32, c: u32, d: u32) -> Fp4 {
    Fp4::new(Fp::new(a), Fp::new(b), Fp::new(c), Fp::new(d))
}

fn modp(v: u64) -> u32 {
    (v % P as u64) as u32
}

#[test]
fn poly_eval_quadratic_base_field() {
    let coeffs = [base(3), base(5), base(7)];
    assert_eq!(poly_eval(&coeffs, base(2)), base(41));
    let (c0, c1, c2, x) = (123456789u64, 987654321u64, 55555u64, 1999999999u64);
    let expected = modp(c0 + modp(c1 * x) as u64 + modp(modp(c2 * x) as u64 * x) as u64);
    let got = poly_eval(&[base(c0 as u32), base(c1 as u32), base(c2 as u32)], base(x as u32));
    assert_eq!(got, base(expected));
}

#[test]
fn poly_eval_quadratic_extension() {
    let c0 = ext(1, 2, 3, 4);
    let c1 = ext(5, 6, 7, 8);
    let c2 = ext(9, 10, 11, 12);
    let x = ext(2, 0, 1, 0);
    let direct = c0.add(c1.mul(x)).add(c2.mul(x.mul(x)));
    assert_eq!(poly_eval(&[c0, c1, c2], x), direct);
}

#[test]
fn extension_reduces_x_to_the_fourth() {
    let x = ext(0, 1, 0, 0);
    let coeffs = [base(0), base(0), base(0), base(0), base(1)];
    assert_eq!(poly_eval(&coeffs, x), base(P - 11));
    assert_eq!(x.mul(x), ext(0, 0, 1, 0));
    assert_eq!(ext(0, 0, 0, 1).mul(x), base(P - 11));
    assert_eq!(base(P - 1).add(base(2)), base(1));
}

#[test]
fn poly_eval_single_and_empty() {
    let c = ext(7, 8, 9, 10);
    assert_eq!(poly_eval(&[c], ext(3, 1, 4, 1)), c);
    assert_eq!(poly_eval(&[], ext(3, 1, 4, 1)), Fp4::zero());
}

#[test]
fn poly_eval_is_linear() {
    let a = [ext(1, 2, 3, 4), ext(P - 1, 0, 5, 6), ext(7, 7, 7, 7)];
    let b = [ext(10, 20, 30, 40), ext(2, P - 3, 1, 0), ext(0, 1, 0, 1)];
    let sum: Vec<Fp4> = a.iter().zip(b.iter()).map(|(x, y)| x.add(*y)).collect();
    let x = ext(12345, 678, 9, 1011);
    assert_eq!(poly_eval(&sum, x), poly_eval(&a, x).add(poly_eval(&b, x)));
}

#[test]
fn poly_group_sizes() {
    let coeffs: Vec<Fp> = (0..48u32).map(Fp::new).collect();
    let g = PolyGroup::new(coeffs, 3, 16).unwrap();
    assert_eq!(g.domain, 64);
    assert_eq!(g.evaluated.len(), 192);
    assert_eq!(g.merkle.params.row_size, 64);
    assert_eq!(g.merkle.params.col_size, 3);
    assert_eq!(g.merkle.params.queries, 50);
    assert_eq!(g.count, 3);
    assert_eq!(g.size, 16);
}

#[test]
fn poly_group_constant_polynomials_evaluate_to_constants() {
    let mut coeffs = vec![Fp::new(0); 8];
    coeffs[0] = Fp::new(5);
    coeffs[4] = Fp::new(9);
    let g = PolyGroup::new(coeffs, 2, 4).unwrap();
    assert_eq!(g.domain, 16);
    for i in 0..16 {
        assert_eq!(g.evaluated[i], Fp::new(5));
        assert_eq!(g.evaluated[16 + i], Fp::new(9));
    }
}

#[test]
fn poly_group_bit_reverses_coefficients() {
    let coeffs: Vec<Fp> = (1..=8u32).map(Fp::new).collect();
    let g = PolyGroup::new(coeffs, 2, 4).unwrap();
    let expect: Vec<Fp> = [1u32, 3, 2, 4, 5, 7, 6, 8].iter().map(|v| Fp::new(*v)).collect();
    assert_eq!(g.coeffs, expect);
    let single = PolyGroup::new(vec![Fp::new(4), Fp::new(6)], 2, 1).unwrap();
    assert_eq!(single.coeffs, vec![Fp::new(4), Fp::new(6)]);
    assert_eq!(single.domain, 4);
}

#[test]
fn poly_group_rejects_bad_shapes() {
    let coeffs: Vec<Fp> = (0..12u32).map(Fp::new).collect();
    assert!(matches!(PolyGroup::new(coeffs.clone(), 3, 5), Err(VerifyError::ConfigurationError)));
    assert!(matches!(PolyGroup::new(coeffs.clone(), 0, 12), Err(VerifyError::ConfigurationError)));
    assert!(matches!(PolyGroup::new(coeffs, 4, 3), Err(VerifyError::ConfigurationError)));
}
