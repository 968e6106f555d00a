use diffie_hellman::context::FieldContext;
use diffie_hellman::ec::{EllipticCurve, Point};
use diffie_hellman::fp_poly::FpPolynomialElement;
use num::BigUint;

fn poly_ctx(p: u64, irr: &[u64]) -> FieldContext {
    let irr: Vec<BigUint> = irr.iter().map(|&c| BigUint::from(c)).collect();
    FieldContext::new_poly(BigUint::from(p), irr).unwrap()
}

fn affine_is(point: &Point, x: &[u64], y: &[u64]) -> bool {
    match point {
        Point::Affine { x: px, y: py } => {
            for (i, c) in px.coeffs.iter().enumerate() {
                let want = if i < x.len() { x[i] } else { 0 };
                if c.val != BigUint::from(want) {
                    return false;
                }
            }
            for (i, c) in py.coeffs.iter().enumerate() {
                let want = if i < y.len() { y[i] } else { 0 };
                if c.val != BigUint::from(want) {
                    return false;
                }
            }
            true
        },
        Point::Infinity => false,
    }
}

#[test]
fn test_curve_f23_poly() {
    // F_23[x]/(x^2 + 1), curve y^2 = x^3 + 2x + 3.
    let ctx = poly_ctx(23, &[1, 0, 1]);
    let a = FpPolynomialElement::from_vec(&ctx, vec![2]);
    let b = FpPolynomialElement::from_vec(&ctx, vec![3]);
    let curve = EllipticCurve::new(a, b, &ctx).unwrap();

    let p1 = curve.point(BigUint::from(0u64), BigUint::from(7u64));
    let p2 = curve.point(BigUint::from(0u64), BigUint::from(16u64));

    let double_p1 = curve.double(&p1).unwrap();
    assert!(affine_is(&double_p1, &[8], &[5]));

    let sum = curve.add(&p1, &p2).unwrap();
    assert!(matches!(sum, Point::Infinity));

    let triple_p1 = curve.mul(&BigUint::from(3u32), &p1).unwrap();
    assert!(affine_is(&triple_p1, &[5], &[0]));
}

#[test]
fn test_curve_f11_poly() {
    // F_11[x]/(x^3 + 2x + 7), curve y^2 = x^3 + 5x + 7.
    let ctx = poly_ctx(11, &[7, 2, 0, 1]);
    let a = FpPolynomialElement::from_vec(&ctx, vec![5]);
    let b = FpPolynomialElement::from_vec(&ctx, vec![7]);
    let curve = EllipticCurve::new(a, b, &ctx).unwrap();

    let p1 = curve.point(BigUint::from(2u64), BigUint::from(5u64));
    let p2 = curve.point(BigUint::from(2u64), BigUint::from(6u64));

    let double_p1 = curve.double(&p1).unwrap();
    assert!(affine_is(&double_p1, &[10], &[10]));

    let sum = curve.add(&p1, &p2).unwrap();
    assert!(matches!(sum, Point::Infinity));

    let triple_p1 = curve.mul(&BigUint::from(3u32), &p1).unwrap();
    assert!(affine_is(&triple_p1, &[3], &[4]));
}

#[test]
fn test_curve_f7_poly() {
    // F_7[x]/(x^2 + x + 3), curve y^2 = x^3 + x + 1.
    let ctx = poly_ctx(7, &[3, 1, 1]);
    let a = FpPolynomialElement::from_vec(&ctx, vec![1]);
    let b = FpPolynomialElement::from_vec(&ctx, vec![1]);
    let curve = EllipticCurve::new(a, b, &ctx).unwrap();

    let p1 = curve.point(BigUint::from(0u64), BigUint::from(1u64));
    let p2 = curve.point(BigUint::from(0u64), BigUint::from(6u64));
    let p3 = curve.point(BigUint::from(0u64), BigUint::from(6u64));

    let sum_p1_neg_p1 = curve.add(&p1, &p2).unwrap();
    assert!(matches!(sum_p1_neg_p1, Point::Infinity));

    let double_p3 = curve.double(&p3).unwrap();
    assert!(affine_is(&double_p3, &[2], &[2]));

    let sum_p1_p3 = curve.add(&p1, &p3).unwrap();
    assert!(matches!(sum_p1_p3, Point::Infinity));
}
