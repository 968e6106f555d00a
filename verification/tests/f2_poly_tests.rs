use diffie_hellman::context::{FieldContext, get_binary_poly_degree};
use diffie_hellman::f2_poly::F2PolynomialElement;
use num::BigUint;

fn bin_ctx() -> FieldContext {
    FieldContext::new_binary(BigUint::from(0b11111101111101001u64)).unwrap()
}

fn f2(ctx: &FieldContext, bits: u64) -> F2PolynomialElement {
    F2PolynomialElement::new(ctx, BigUint::from(bits))
}

#[test]
fn f2_poly_test_binary_polynomial_addition() {
    let ctx = bin_ctx();
    let poly_a = f2(&ctx, 0b1000101000011101);
    let poly_b = f2(&ctx, 0b1010011011000101);
    let sum = poly_a.add(&poly_b);
    assert_eq!(sum.coeffs, BigUint::from(0b10110011011000u64));
}

#[test]
fn f2_poly_test_binary_polynomial_subtraction() {
    let ctx = bin_ctx();
    let poly_a = f2(&ctx, 0b1000101000011101);
    let poly_b = f2(&ctx, 0b1010011011000101);
    let diff_a_b = poly_a.sub(&poly_b);
    let diff_b_a = poly_b.sub(&poly_a);
    assert_eq!(diff_a_b.coeffs, BigUint::from(0b10110011011000u64));
    assert_eq!(diff_b_a.coeffs, BigUint::from(0b10110011011000u64));
}

#[test]
fn f2_poly_test_binary_polynomial_multiplication() {
    let ctx = bin_ctx();
    let poly_a = f2(&ctx, 0b1000101000011101);
    let poly_b = f2(&ctx, 0b1010011011000101);
    let mult = poly_a.mul(&poly_b);
    assert_eq!(mult.coeffs, BigUint::from(0b1110001011001111u64));
}

#[test]
fn f2_poly_test_binary_polynomial_negation() {
    let ctx = bin_ctx();
    let poly_a = f2(&ctx, 0b1000101000011101);
    let poly_b = f2(&ctx, 0b1010011011000101);
    assert_eq!(poly_a.neg().coeffs, BigUint::from(0b1000101000011101u64));
    assert_eq!(poly_b.neg().coeffs, BigUint::from(0b1010011011000101u64));
}

#[test]
fn f2_poly_test_binary_polynomial_inverse() {
    let ctx = bin_ctx();
    let poly_a = f2(&ctx, 0b1000101000011101);
    let poly_b = f2(&ctx, 0b1010011011000101);
    let inv_a = poly_a.inverse().unwrap();
    let inv_b = poly_b.inverse().unwrap();
    assert_eq!(inv_a.mul(&poly_a).coeffs, BigUint::from(1u64));
    assert_eq!(inv_b.mul(&poly_b).coeffs, BigUint::from(1u64));
    assert_eq!(inv_a.coeffs, BigUint::from(0b111001101011011u64));
    assert_eq!(inv_b.coeffs, BigUint::from(0b1100101110010000u64));
}

#[test]
fn f2_poly_test_binary_polynomial_division() {
    let ctx = bin_ctx();
    let poly_a = f2(&ctx, 0b1000101000011101);
    let poly_b = f2(&ctx, 0b1010011011000101);
    let div_a_b = poly_a.div(&poly_b).unwrap();
    let div_b_a = poly_b.div(&poly_a).unwrap();
    assert_eq!(div_a_b.coeffs, BigUint::from(0b11001000101111u64));
    assert_eq!(div_b_a.coeffs, BigUint::from(0b1101101111011110u64));
}

#[test]
fn test_binary_polynomial_division_internals() {
    let a = BigUint::from(0b1011010u64);
    let b = BigUint::from(0b101u64);
    let (quotient, remainder) = F2PolynomialElement::poly_div(&a, &b);
    assert_eq!(quotient, BigUint::from(0b10010u64));
    assert_eq!(remainder, BigUint::from(0u64));

    let a = BigUint::from(0b1011010u64);
    let b = BigUint::from(0b11u64);
    let (quotient, remainder) = F2PolynomialElement::poly_div(&a, &b);
    assert_eq!(quotient, BigUint::from(0b110110u64));
    assert_eq!(remainder, BigUint::from(0u64));

    let a = BigUint::from(0b1011010u64);
    let b = BigUint::from(0b1011u64);
    let (quotient, remainder) = F2PolynomialElement::poly_div(&a, &b);
    assert_eq!(quotient, BigUint::from(0b1000u64));
    assert_eq!(remainder, BigUint::from(0b10u64));

    let a = BigUint::from(0b1011010u64);
    let b = BigUint::from(0b101011111u64);
    assert_eq!(get_binary_poly_degree(&a), 6);
    assert_eq!(get_binary_poly_degree(&b), 8);
    let (quotient, remainder) = F2PolynomialElement::poly_div(&a, &b);
    assert_eq!(quotient, BigUint::from(0u64));
    assert_eq!(remainder, BigUint::from(0b1011010u64));
}

#[test]
fn test_binary_polynomial_extended_gcd() {
    let a = BigUint::from(0b1011u64);
    let b = BigUint::from(0b11u64);
    let (gcd, u, v) = F2PolynomialElement::poly_extended_gcd(&a, &b);
    assert_eq!(gcd, BigUint::from(1u64));
    let lhs = F2PolynomialElement::poly_mul(&u, &a) ^ F2PolynomialElement::poly_mul(&v, &b);
    assert_eq!(lhs, gcd);

    let a = BigUint::from(0b110101u64);
    let b = BigUint::from(0b101u64);
    let (gcd, u, v) = F2PolynomialElement::poly_extended_gcd(&a, &b);
    assert_eq!(gcd, BigUint::from(0b11u64));
    let lhs = F2PolynomialElement::poly_mul(&u, &a) ^ F2PolynomialElement::poly_mul(&v, &b);
    assert_eq!(lhs, gcd);

    let a = BigUint::from(0b100011011u64);
    let b = BigUint::from(0u64);
    let (gcd, u, v) = F2PolynomialElement::poly_extended_gcd(&a, &b);
    assert_eq!(gcd, a);
    let lhs = F2PolynomialElement::poly_mul(&u, &a) ^ F2PolynomialElement::poly_mul(&v, &b);
    assert_eq!(lhs, gcd);

    let a = BigUint::from(0b101010u64);
    let b = BigUint::from(0b1110u64);
    let (gcd, u, v) = F2PolynomialElement::poly_extended_gcd(&a, &b);
    assert_eq!(gcd, BigUint::from(0b1110u64));
    let lhs = F2PolynomialElement::poly_mul(&u, &a) ^ F2PolynomialElement::poly_mul(&v, &b);
    assert_eq!(lhs, gcd);

    let a = BigUint::from(0b111u64);
    let b = BigUint::from(1u64);
    let (gcd, u, v) = F2PolynomialElement::poly_extended_gcd(&a, &b);
    assert_eq!(gcd, BigUint::from(1u64));
    let lhs = F2PolynomialElement::poly_mul(&u, &a) ^ F2PolynomialElement::poly_mul(&v, &b);
    assert_eq!(lhs, gcd);
}

#[test]
fn f2_poly_test_binary_polynomial_exponentiation() {
    let ctx = bin_ctx();
    let poly_a = f2(&ctx, 0b1000101000011101);
    let poly_b = f2(&ctx, 0b1010011011000101);
    let order = BigUint::from(65535u32);
    let exp = BigUint::from(5u64);

    let exp_a = poly_a.pow(&exp);
    let exp_b = poly_b.pow(&exp);

    let a5 = poly_a.mul(&poly_a).mul(&poly_a).mul(&poly_a).mul(&poly_a);
    let b5 = poly_b.mul(&poly_b).mul(&poly_b).mul(&poly_b).mul(&poly_b);
    assert_eq!(exp_a.coeffs, a5.coeffs);
    assert_eq!(exp_b.coeffs, b5.coeffs);

    assert_eq!(exp_a.coeffs, poly_a.pow_secure(&exp, &order).coeffs);
    assert_eq!(exp_b.coeffs, poly_b.pow_secure(&exp, &order).coeffs);
}

#[test]
fn test_binary_polynomial_degree() {
    let ctx = bin_ctx();
    let poly_a = f2(&ctx, 0b1000101000011101);
    let poly_b = f2(&ctx, 0b1010011011000101);
    assert_eq!(get_binary_poly_degree(&poly_a.coeffs), 15);
    assert_eq!(get_binary_poly_degree(&poly_b.coeffs), 15);
    assert_eq!(ctx.get_irreducible_poly_degree(), 16);
}
