use diffie_hellman::context::FieldContext;
use diffie_hellman::fp_poly::FpPolynomialElement;
use num::BigUint;

fn ctx_17() -> FieldContext {
    let p = BigUint::from(17u64);
    let irr = vec![BigUint::from(3u64), BigUint::from(1u64), BigUint::from(1u64)];
    FieldContext::new_poly(p, irr).unwrap()
}

fn ctx_11() -> FieldContext {
    let p = BigUint::from(11u64);
    let irr: Vec<BigUint> = [1u64, 0, 5, 3, 1, 4, 4, 1].iter().map(|&c| BigUint::from(c)).collect();
    FieldContext::new_poly(p, irr).unwrap()
}

fn pv(ctx: &FieldContext, coeffs: &[u64]) -> FpPolynomialElement {
    FpPolynomialElement::from_vec(ctx, coeffs.to_vec())
}

fn coeffs_are(e: &FpPolynomialElement, expected: &[u64]) -> bool {
    if e.coeffs.len() < expected.len() {
        return false;
    }
    for (i, c) in e.coeffs.iter().enumerate() {
        let want = if i < expected.len() { expected[i] } else { 0 };
        if c.val != BigUint::from(want) {
            return false;
        }
    }
    true
}

#[test]
fn fp_poly_test_polynomial_addition() {
    let ctx = ctx_17();
    let poly_a = pv(&ctx, &[2, 3]);
    let poly_b = pv(&ctx, &[5, 1]);
    let sum = poly_a.add(&poly_b);
    assert_eq!(sum.coeffs[0].val, BigUint::from(7u64));
    assert_eq!(sum.coeffs[1].val, BigUint::from(4u64));
}

#[test]
fn fp_poly_test_polynomial_subtraction() {
    let ctx = ctx_17();
    let poly_a = pv(&ctx, &[2, 3]);
    let poly_b = pv(&ctx, &[5, 1]);
    let diff = poly_b.sub(&poly_a);
    assert_eq!(diff.coeffs[0].val, BigUint::from(3u64));
    assert_eq!(diff.coeffs[1].val, BigUint::from(15u64));
}

#[test]
fn fp_poly_test_polynomial_multiplication() {
    let ctx = ctx_17();
    let poly_a = pv(&ctx, &[2, 3]);
    let poly_b = pv(&ctx, &[5, 1]);
    let prod = poly_a.mul(&poly_b);
    assert_eq!(prod.coeffs[0].val, BigUint::from(1u64));
    assert_eq!(prod.coeffs[1].val, BigUint::from(14u64));
    let zero_poly = FpPolynomialElement::zero(&ctx);
    let zero_prod = poly_a.mul(&zero_poly);
    assert!(zero_prod.is_zero());
}

#[test]
fn fp_poly_test_polynomial_negation() {
    let ctx = ctx_17();
    let poly_a = pv(&ctx, &[2, 3]);
    let neg_a = poly_a.neg();
    assert_eq!(neg_a.coeffs[0].val, BigUint::from(15u64));
    assert_eq!(neg_a.coeffs[1].val, BigUint::from(14u64));
    let zero_poly = FpPolynomialElement::zero(&ctx);
    assert!(zero_poly.neg().is_zero());
}

#[test]
fn fp_poly_test_polynomial_inverse() {
    let ctx = ctx_17();
    let poly_b = pv(&ctx, &[5, 1]);
    let inv_b = poly_b.inverse().unwrap();
    let check_inv = poly_b.mul(&inv_b);
    assert!(coeffs_are(&check_inv, &[1, 0]));
}

#[test]
fn fp_poly_test_polynomial_division() {
    let ctx = ctx_17();
    let poly_a = pv(&ctx, &[2, 3]);
    let poly_b = pv(&ctx, &[5, 1]);
    let quotient = poly_a.div(&poly_b).unwrap();
    let check_div = quotient.mul(&poly_b);
    assert!(coeffs_are(&check_div, &[2, 3]));
}

#[test]
fn fp_poly_test_polynomial_exponentiation() {
    let ctx = ctx_17();
    let poly_a = pv(&ctx, &[2, 3]);
    let exp = BigUint::from(5u64);
    assert!(coeffs_are(&poly_a.pow(&exp), &[15, 4]));
    let exp_big = BigUint::from(16u64);
    assert!(coeffs_are(&poly_a.pow(&exp_big), &[1, 6]));
}

#[test]
fn fp_poly_test_additional_polynomial_cases() {
    let ctx = ctx_17();
    let poly_x_only = pv(&ctx, &[0, 1]);
    let prod = poly_x_only.mul(&poly_x_only);
    assert_eq!(prod.coeffs[0].val, BigUint::from(14u64));
    assert_eq!(prod.coeffs[1].val, BigUint::from(16u64));
    let poly_rand = pv(&ctx, &[4, 9]);
    let inv_rand = poly_rand.inverse().unwrap();
    let check_inv = poly_rand.mul(&inv_rand);
    assert!(coeffs_are(&check_inv, &[1, 0]));
}

#[test]
fn field_test_polynomial_addition() {
    let ctx = ctx_17();
    let poly_a = pv(&ctx, &[2, 3]);
    let poly_b = pv(&ctx, &[5, 1]);
    let sum = poly_a.add(&poly_b);
    assert_eq!(sum.coeffs[0].val, BigUint::from(7u64));
    assert_eq!(sum.coeffs[1].val, BigUint::from(4u64));
}

#[test]
fn field_test_polynomial_subtraction() {
    let ctx = ctx_17();
    let poly_a = pv(&ctx, &[2, 3]);
    let poly_b = pv(&ctx, &[5, 1]);
    let diff = poly_b.sub(&poly_a);
    assert_eq!(diff.coeffs[0].val, BigUint::from(3u64));
    assert_eq!(diff.coeffs[1].val, BigUint::from(15u64));
}

#[test]
fn field_test_polynomial_multiplication() {
    let ctx = ctx_17();
    let poly_a = pv(&ctx, &[2, 3]);
    let poly_b = pv(&ctx, &[5, 1]);
    let prod = poly_a.mul(&poly_b);
    assert_eq!(prod.coeffs[0].val, BigUint::from(1u64));
    assert_eq!(prod.coeffs[1].val, BigUint::from(14u64));
    let zero_poly = FpPolynomialElement::zero(&ctx);
    assert!(poly_a.mul(&zero_poly).is_zero());
}

#[test]
fn field_test_polynomial_negation() {
    let ctx = ctx_17();
    let poly_a = pv(&ctx, &[2, 3]);
    let neg_a = poly_a.neg();
    assert_eq!(neg_a.coeffs[0].val, BigUint::from(15u64));
    assert_eq!(neg_a.coeffs[1].val, BigUint::from(14u64));
    let zero_poly = FpPolynomialElement::zero(&ctx);
    assert!(zero_poly.neg().is_zero());
}

#[test]
fn field_test_polynomial_inverse() {
    let ctx = ctx_17();
    let poly_b = pv(&ctx, &[5, 1]);
    let inv_b = poly_b.inverse().unwrap();
    assert!(coeffs_are(&poly_b.mul(&inv_b), &[1, 0]));
}

#[test]
fn field_test_polynomial_division() {
    let ctx = ctx_17();
    let poly_a = pv(&ctx, &[2, 3]);
    let poly_b = pv(&ctx, &[5, 1]);
    let quotient = poly_a.div(&poly_b).unwrap();
    assert!(coeffs_are(&quotient.mul(&poly_b), &[2, 3]));
}

#[test]
fn field_test_polynomial_exponentiation() {
    let ctx = ctx_17();
    let poly_a = pv(&ctx, &[2, 3]);
    assert!(coeffs_are(&poly_a.pow(&BigUint::from(5u64)), &[15, 4]));
    assert!(coeffs_are(&poly_a.pow(&BigUint::from(16u64)), &[1, 6]));
}

#[test]
fn field_test_additional_polynomial_cases() {
    let ctx = ctx_17();
    let poly_x_only = pv(&ctx, &[0, 1]);
    let prod = poly_x_only.mul(&poly_x_only);
    assert_eq!(prod.coeffs[0].val, BigUint::from(14u64));
    assert_eq!(prod.coeffs[1].val, BigUint::from(16u64));
    let poly_rand = pv(&ctx, &[4, 9]);
    let inv_rand = poly_rand.inverse().unwrap();
    assert!(coeffs_are(&poly_rand.mul(&inv_rand), &[1, 0]));
}

#[test]
fn test_mizoz_example() {
    let ctx = ctx_11();
    let p1 = pv(&ctx, &[8, 6, 7, 7, 3, 9, 1]);
    let p2 = pv(&ctx, &[3, 7, 0, 3, 4, 2, 4]);

    assert!(coeffs_are(&p1.add(&p2), &[0, 2, 7, 10, 7, 0, 5]));
    assert!(coeffs_are(&p1.neg(), &[3, 5, 4, 4, 8, 2, 10]));
    assert!(coeffs_are(&p2.neg(), &[8, 4, 0, 8, 7, 9, 7]));
    assert!(coeffs_are(&p1.sub(&p2), &[5, 10, 7, 4, 10, 7, 8]));
    assert!(coeffs_are(&p2.sub(&p1), &[6, 1, 4, 7, 1, 4, 3]));
    assert!(coeffs_are(&p1.mul(&p2), &[4, 10, 10, 4, 10, 1, 3]));
    assert!(coeffs_are(&p1.inverse().unwrap(), &[0, 5, 8, 4, 1, 5, 2]));
    assert!(coeffs_are(&p2.inverse().unwrap(), &[10, 2, 2, 6, 2, 2, 10]));
    assert!(coeffs_are(&p1.div(&p2).unwrap(), &[6, 2, 0, 3, 0, 0, 9]));
    assert!(coeffs_are(&p2.div(&p1).unwrap(), &[7, 2, 4, 2, 1, 1, 10]));
}
