use diffie_hellman::context::FieldContext;
use diffie_hellman::fp::FpElement;
use num::BigUint;

fn prime_ctx(p: u64) -> FieldContext {
    FieldContext::new_prime(BigUint::from(p)).unwrap()
}

fn poly_ctx_17() -> FieldContext {
    let p = BigUint::from(17u64);
    let irr = vec![BigUint::from(3u64), BigUint::from(1u64), BigUint::from(1u64)];
    FieldContext::new_poly(p, irr).unwrap()
}

fn fp(ctx: &FieldContext, v: u64) -> FpElement {
    FpElement::new(ctx, BigUint::from(v))
}

#[test]
fn fp_test_fp_addition() {
    let ctx = prime_ctx(17);
    let a = fp(&ctx, 2);
    let b = fp(&ctx, 3);
    let c = fp(&ctx, 0);
    assert_eq!(a.add(&b).val, BigUint::from(5u64));
    assert_eq!(a.add(&c).val, a.val);
    let x = fp(&ctx, 16);
    let y = fp(&ctx, 5);
    assert_eq!(x.add(&y).val, BigUint::from(4u64));
}

#[test]
fn fp_test_fp_subtraction() {
    let ctx = prime_ctx(17);
    let a = fp(&ctx, 2);
    let b = fp(&ctx, 3);
    assert_eq!(b.sub(&a).val, BigUint::from(1u64));
    let x = fp(&ctx, 1);
    let y = fp(&ctx, 0);
    assert_eq!(y.sub(&x).val, BigUint::from(16u64));
}

#[test]
fn fp_test_fp_multiplication() {
    let ctx = prime_ctx(17);
    let a = fp(&ctx, 2);
    let b = fp(&ctx, 3);
    assert_eq!(a.mul(&b).val, BigUint::from(6u64));
    let zero = fp(&ctx, 0);
    assert_eq!(a.mul(&zero).val, BigUint::from(0u64));
    let big = fp(&ctx, 20);
    assert_eq!(big.mul(&b).val, BigUint::from(9u64));
}

#[test]
fn fp_test_fp_negation() {
    let ctx = prime_ctx(17);
    let a = fp(&ctx, 2);
    assert_eq!(a.neg().val, BigUint::from(15u64));
    let zero = fp(&ctx, 0);
    assert_eq!(zero.neg().val, BigUint::from(0u64));
}

#[test]
fn fp_test_fp_inverse() {
    let ctx = prime_ctx(17);
    let a = fp(&ctx, 3);
    let inv_a = a.inverse().unwrap();
    assert_eq!(a.mul(&inv_a).val, BigUint::from(1u64));
    let b = fp(&ctx, 5);
    let inv_b = b.inverse().unwrap();
    assert_eq!(b.mul(&inv_b).val, BigUint::from(1u64));
}

#[test]
fn fp_test_fp_division() {
    let ctx = prime_ctx(17);
    let a = fp(&ctx, 2);
    let b = fp(&ctx, 3);
    let div = a.div(&b).unwrap();
    assert_eq!(div.val, BigUint::from(12u64));
}

#[test]
fn fp_test_fp_exponentiation() {
    let ctx = prime_ctx(17);
    let a = fp(&ctx, 2);
    let exp = BigUint::from(5u64);
    assert_eq!(a.pow(&exp).val, BigUint::from(15u64));
    let exp_big = BigUint::from(16u64);
    assert_eq!(a.pow(&exp_big).val, BigUint::from(1u64));
}

#[test]
fn field_test_fp_addition() {
    let ctx = poly_ctx_17();
    let a = fp(&ctx, 2);
    let b = fp(&ctx, 3);
    let c = fp(&ctx, 0);
    assert_eq!(a.add(&b).val, BigUint::from(5u64));
    assert_eq!(a.add(&c).val, a.val);
    let x = fp(&ctx, 16);
    let y = fp(&ctx, 5);
    assert_eq!(x.add(&y).val, BigUint::from(4u64));
}

#[test]
fn field_test_fp_subtraction() {
    let ctx = poly_ctx_17();
    let a = fp(&ctx, 2);
    let b = fp(&ctx, 3);
    assert_eq!(b.sub(&a).val, BigUint::from(1u64));
    let x = fp(&ctx, 1);
    let y = fp(&ctx, 0);
    assert_eq!(y.sub(&x).val, BigUint::from(16u64));
}

#[test]
fn field_test_fp_multiplication() {
    let ctx = poly_ctx_17();
    let a = fp(&ctx, 2);
    let b = fp(&ctx, 3);
    assert_eq!(a.mul(&b).val, BigUint::from(6u64));
    let zero = fp(&ctx, 0);
    assert_eq!(a.mul(&zero).val, BigUint::from(0u64));
    let big = fp(&ctx, 20);
    assert_eq!(big.mul(&b).val, BigUint::from(9u64));
}

#[test]
fn field_test_fp_negation() {
    let ctx = poly_ctx_17();
    let a = fp(&ctx, 2);
    assert_eq!(a.neg().val, BigUint::from(15u64));
    let zero = fp(&ctx, 0);
    assert_eq!(zero.neg().val, BigUint::from(0u64));
}

#[test]
fn field_test_fp_inverse() {
    let ctx = poly_ctx_17();
    let a = fp(&ctx, 3);
    let inv_a = a.inverse().unwrap();
    assert_eq!(a.mul(&inv_a).val, BigUint::from(1u64));
    let b = fp(&ctx, 5);
    let inv_b = b.inverse().unwrap();
    assert_eq!(b.mul(&inv_b).val, BigUint::from(1u64));
}

#[test]
fn field_test_fp_division() {
    let ctx = poly_ctx_17();
    let a = fp(&ctx, 2);
    let b = fp(&ctx, 3);
    let div = a.div(&b).unwrap();
    assert_eq!(div.val, BigUint::from(12u64));
}

#[test]
fn field_test_fp_exponentiation() {
    let ctx = poly_ctx_17();
    let a = fp(&ctx, 2);
    let exp = BigUint::from(5u64);
    assert_eq!(a.pow(&exp).val, BigUint::from(15u64));
    let exp_big = BigUint::from(16u64);
    assert_eq!(a.pow(&exp_big).val, BigUint::from(1u64));
}
