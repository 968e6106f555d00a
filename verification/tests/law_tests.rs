use base64::Engine;
use diffie_hellman::context::FieldContext;
use diffie_hellman::ec::{EllipticCurve, Point};
use diffie_hellman::ec_binary::{BinaryEllipticCurve, BinaryPoint};
use diffie_hellman::f2_poly::F2PolynomialElement;
use diffie_hellman::fp::FpElement;
use diffie_hellman::fp_poly::FpPolynomialElement;
use diffie_hellman::FieldError;
use num::BigUint;
use sha2::Digest;

fn prime_ctx(p: u64) -> FieldContext {
    FieldContext::new_prime(BigUint::from(p)).unwrap()
}

fn ext_ctx(p: u64, irr: &[u64]) -> FieldContext {
    let irr: Vec<BigUint> = irr.iter().map(|&c| BigUint::from(c)).collect();
    FieldContext::new_poly(BigUint::from(p), irr).unwrap()
}

fn bin_ctx_small() -> FieldContext {
    FieldContext::new_binary(BigUint::from(0b11111101111101001u64)).unwrap()
}

#[test]
fn law_fp_field_axioms_sampled() {
    let ctx = prime_ctx(17);
    for (av, bv, cv) in [(2u64, 3u64, 5u64), (16, 1, 9), (7, 7, 7), (0, 11, 13)] {
        let a = FpElement::new(&ctx, BigUint::from(av));
        let b = FpElement::new(&ctx, BigUint::from(bv));
        let c = FpElement::new(&ctx, BigUint::from(cv));
        let zero = FpElement::zero(&ctx);
        let one = FpElement::one(&ctx);
        assert_eq!(a.add(&zero).val, a.val);
        assert_eq!(a.mul(&one).val, a.val);
        assert_eq!(a.add(&a.neg()).val, BigUint::from(0u64));
        if av != 0 {
            assert_eq!(a.mul(&a.inverse().unwrap()).val, BigUint::from(1u64));
        }
        assert_eq!(a.add(&b).add(&c).val, a.add(&b.add(&c)).val);
        assert_eq!(a.mul(&b).mul(&c).val, a.mul(&b.mul(&c)).val);
        assert_eq!(a.mul(&b.add(&c)).val, a.mul(&b).add(&a.mul(&c)).val);
    }
}

#[test]
fn law_f2_field_axioms_sampled() {
    let ctx = bin_ctx_small();
    for (av, bv, cv) in [(0b1000101000011101u64, 0b1010011011000101u64, 0b1011u64), (1, 2, 3)] {
        let a = F2PolynomialElement::new(&ctx, BigUint::from(av));
        let b = F2PolynomialElement::new(&ctx, BigUint::from(bv));
        let c = F2PolynomialElement::new(&ctx, BigUint::from(cv));
        let zero = F2PolynomialElement::zero(&ctx);
        let one = F2PolynomialElement::one(&ctx);
        assert_eq!(a.add(&zero).coeffs, a.coeffs);
        assert_eq!(a.mul(&one).coeffs, a.coeffs);
        assert_eq!(a.add(&a.neg()).coeffs, BigUint::from(0u64));
        assert_eq!(a.mul(&a.inverse().unwrap()).coeffs, BigUint::from(1u64));
        assert_eq!(a.add(&b).add(&c).coeffs, a.add(&b.add(&c)).coeffs);
        assert_eq!(a.mul(&b).mul(&c).coeffs, a.mul(&b.mul(&c)).coeffs);
        assert_eq!(a.mul(&b.add(&c)).coeffs, a.mul(&b).add(&a.mul(&c)).coeffs);
    }
}

#[test]
fn law_fp_poly_field_axioms_sampled() {
    let ctx = ext_ctx(17, &[3, 1, 1]);
    for (av, bv, cv) in [([2u64, 3u64], [5u64, 1u64], [4u64, 9u64]), ([0, 1], [16, 16], [7, 0])] {
        let a = FpPolynomialElement::from_vec(&ctx, av.to_vec());
        let b = FpPolynomialElement::from_vec(&ctx, bv.to_vec());
        let c = FpPolynomialElement::from_vec(&ctx, cv.to_vec());
        let zero = FpPolynomialElement::zero(&ctx);
        let one = FpPolynomialElement::one(&ctx);
        let eq = |x: &FpPolynomialElement, y: &FpPolynomialElement| {
            x.coeffs.len() == y.coeffs.len()
                && x.coeffs.iter().zip(y.coeffs.iter()).all(|(u, v)| u.val == v.val)
        };
        assert!(eq(&a.add(&zero), &a));
        assert!(eq(&a.mul(&one), &a));
        assert!(a.add(&a.neg()).is_zero());
        assert!(eq(&a.mul(&a.inverse().unwrap()), &one));
        assert!(eq(&a.add(&b).add(&c), &a.add(&b.add(&c))));
        assert!(eq(&a.mul(&b), &b.mul(&a)));
        assert!(eq(&a.mul(&b).mul(&c), &a.mul(&b.mul(&c))));
        assert!(eq(&a.mul(&b.add(&c)), &a.mul(&b).add(&a.mul(&c))));
    }
}

#[test]
fn law_division_round_trip() {
    let fctx = prime_ctx(17);
    let a = FpElement::new(&fctx, BigUint::from(11u64));
    let b = FpElement::new(&fctx, BigUint::from(5u64));
    assert_eq!(a.div(&b).unwrap().mul(&b).val, a.val);

    let bctx = bin_ctx_small();
    let fa = F2PolynomialElement::new(&bctx, BigUint::from(0b1000101000011101u64));
    let fb = F2PolynomialElement::new(&bctx, BigUint::from(0b1010011011000101u64));
    assert_eq!(fa.div(&fb).unwrap().mul(&fb).coeffs, fa.coeffs);

    let pctx = ext_ctx(17, &[3, 1, 1]);
    let pa = FpPolynomialElement::from_vec(&pctx, vec![2, 3]);
    let pb = FpPolynomialElement::from_vec(&pctx, vec![5, 1]);
    let back = pa.div(&pb).unwrap().mul(&pb);
    assert!(back.coeffs.iter().zip(pa.coeffs.iter()).all(|(u, v)| u.val == v.val));
}

#[test]
fn law_pow_secure_consistency() {
    let ctx = prime_ctx(17);
    let a = FpElement::new(&ctx, BigUint::from(7u64));
    let order = BigUint::from(16u64);
    for e in [0u64, 1, 0b1111, 0b1000, 15] {
        let e = BigUint::from(e);
        assert_eq!(a.pow(&e).val, a.pow_secure(&e, &order).val);
    }

    let bctx = bin_ctx_small();
    let fa = F2PolynomialElement::new(&bctx, BigUint::from(0b1000101000011101u64));
    let order = BigUint::from(65535u64);
    for e in [0u64, 1, 0xFFFF - 1, 0x8000, 0x7777] {
        let e = BigUint::from(e);
        assert_eq!(fa.pow(&e).coeffs, fa.pow_secure(&e, &order).coeffs);
    }

    let pctx = ext_ctx(17, &[3, 1, 1]);
    let pa = FpPolynomialElement::from_vec(&pctx, vec![2, 3]);
    let order = BigUint::from(288u64);
    for e in [0u64, 1, 16, 287, 255] {
        let e = BigUint::from(e);
        let plain = pa.pow(&e);
        let secure = pa.pow_secure(&e, &order);
        assert!(plain.coeffs.iter().zip(secure.coeffs.iter()).all(|(u, v)| u.val == v.val));
    }
}

#[test]
fn law_curve_group_identities() {
    // Weierstrass over F_23 (degree-1 extension), curve y^2 = x^3 + 2x + 3.
    let ctx = ext_ctx(23, &[0, 1]);
    let a = FpPolynomialElement::from_vec(&ctx, vec![2]);
    let b = FpPolynomialElement::from_vec(&ctx, vec![3]);
    let curve = EllipticCurve::new(a, b, &ctx).unwrap();
    let g = curve.point(BigUint::from(0u64), BigUint::from(7u64));
    let neg_g = curve.point(BigUint::from(0u64), BigUint::from(16u64));

    // P + identity == P.
    match curve.add(&g, &Point::Infinity).unwrap() {
        Point::Affine { x, y } => {
            assert_eq!(x.coeffs[0].val, BigUint::from(0u64));
            assert_eq!(y.coeffs[0].val, BigUint::from(7u64));
        },
        _ => panic!("Expected affine point"),
    }
    // P + (-P) == identity.
    assert!(matches!(curve.add(&g, &neg_g).unwrap(), Point::Infinity));
    // double(P) == P + P.
    let d = curve.double(&g).unwrap();
    let s = curve.add(&g, &g).unwrap();
    match (&d, &s) {
        (Point::Affine { x: x1, y: y1 }, Point::Affine { x: x2, y: y2 }) => {
            assert_eq!(x1.coeffs[0].val, x2.coeffs[0].val);
            assert_eq!(y1.coeffs[0].val, y2.coeffs[0].val);
        },
        _ => panic!("Expected affine point"),
    }
    // mul(2, P) == double(P).
    let m2 = curve.mul(&BigUint::from(2u64), &g).unwrap();
    match (&d, &m2) {
        (Point::Affine { x: x1, .. }, Point::Affine { x: x2, .. }) => {
            assert_eq!(x1.coeffs[0].val, x2.coeffs[0].val);
        },
        _ => panic!("Expected affine point"),
    }
    // mul(0, P) == identity, and the point (0, 7) has order 6.
    assert!(matches!(curve.mul(&BigUint::from(0u64), &g).unwrap(), Point::Infinity));
    assert!(matches!(curve.mul(&BigUint::from(6u64), &g).unwrap(), Point::Infinity));

    // The same identities on a binary curve.
    let bctx = FieldContext::new_binary(BigUint::from(0b10011u32)).unwrap();
    let ba = F2PolynomialElement::new(&bctx, BigUint::from(1u64));
    let bb = F2PolynomialElement::new(&bctx, BigUint::from(1u64));
    let bcurve = BinaryEllipticCurve::new(ba, bb, &bctx).unwrap();
    let bp = BinaryPoint::Affine {
        x: F2PolynomialElement::new(&bctx, BigUint::from(0b0110u64)),
        y: F2PolynomialElement::new(&bctx, BigUint::from(0b0001u64)),
    };
    match bcurve.add(&bp, &BinaryPoint::Infinity).unwrap() {
        BinaryPoint::Affine { x, y } => {
            assert_eq!(x.coeffs, BigUint::from(0b0110u64));
            assert_eq!(y.coeffs, BigUint::from(0b0001u64));
        },
        _ => panic!("Expected affine point"),
    }
    // Same x with different y adds to the identity.
    let bq = BinaryPoint::Affine {
        x: F2PolynomialElement::new(&bctx, BigUint::from(0b0110u64)),
        y: F2PolynomialElement::new(&bctx, BigUint::from(0b0111u64)),
    };
    assert!(matches!(bcurve.add(&bp, &bq).unwrap(), BinaryPoint::Infinity));
    assert!(matches!(bcurve.mul(&BigUint::from(0u64), &bp).unwrap(), BinaryPoint::Infinity));
}

#[test]
fn law_scalar_mul_secure_consistency() {
    let ctx = ext_ctx(23, &[0, 1]);
    let a = FpPolynomialElement::from_vec(&ctx, vec![2]);
    let b = FpPolynomialElement::from_vec(&ctx, vec![3]);
    let curve = EllipticCurve::new(a, b, &ctx).unwrap();
    let g = curve.point(BigUint::from(0u64), BigUint::from(7u64));
    let order = BigUint::from(6u64);
    for k in 0u64..6 {
        let k = BigUint::from(k);
        let plain = curve.mul(&k, &g).unwrap();
        let secure = curve.mul_secure(&k, &g, &order).unwrap();
        match (&plain, &secure) {
            (Point::Infinity, Point::Infinity) => {},
            (Point::Affine { x: x1, y: y1 }, Point::Affine { x: x2, y: y2 }) => {
                assert_eq!(x1.coeffs[0].val, x2.coeffs[0].val);
                assert_eq!(y1.coeffs[0].val, y2.coeffs[0].val);
            },
            _ => panic!("mismatched points"),
        }
    }

    let bctx = FieldContext::new_binary(BigUint::from(0b10011u32)).unwrap();
    let ba = F2PolynomialElement::new(&bctx, BigUint::from(1u64));
    let bb = F2PolynomialElement::new(&bctx, BigUint::from(1u64));
    let bcurve = BinaryEllipticCurve::new(ba, bb, &bctx).unwrap();
    let bg = BinaryPoint::Affine {
        x: F2PolynomialElement::new(&bctx, BigUint::from(0b0110u64)),
        y: F2PolynomialElement::new(&bctx, BigUint::from(0b0001u64)),
    };
    let border = BigUint::from(16u64);
    for k in 0u64..16 {
        let k = BigUint::from(k);
        let plain = bcurve.mul(&k, &bg).unwrap();
        let secure = bcurve.mul_secure(&k, &bg, &border).unwrap();
        match (&plain, &secure) {
            (BinaryPoint::Infinity, BinaryPoint::Infinity) => {},
            (
                BinaryPoint::Affine { x: x1, y: y1 },
                BinaryPoint::Affine { x: x2, y: y2 },
            ) => {
                assert_eq!(x1.coeffs, x2.coeffs);
                assert_eq!(y1.coeffs, y2.coeffs);
            },
            _ => panic!("mismatched points"),
        }
    }
}

#[test]
fn law_diffie_hellman_agreement() {
    let ctx = ext_ctx(23, &[0, 1]);
    let ca = FpPolynomialElement::from_vec(&ctx, vec![2]);
    let cb = FpPolynomialElement::from_vec(&ctx, vec![3]);
    let curve = EllipticCurve::new(ca, cb, &ctx).unwrap();
    let g = curve.point(BigUint::from(0u64), BigUint::from(7u64));
    for (a, b) in [(2u64, 3u64), (4, 5), (3, 3)] {
        let a = BigUint::from(a);
        let b = BigUint::from(b);
        let bg = curve.mul(&b, &g).unwrap();
        let ag = curve.mul(&a, &g).unwrap();
        let abg = curve.mul(&a, &bg).unwrap();
        let bag = curve.mul(&b, &ag).unwrap();
        match (&abg, &bag) {
            (Point::Infinity, Point::Infinity) => {},
            (Point::Affine { x: x1, y: y1 }, Point::Affine { x: x2, y: y2 }) => {
                assert_eq!(x1.coeffs[0].val, x2.coeffs[0].val);
                assert_eq!(y1.coeffs[0].val, y2.coeffs[0].val);
            },
            _ => panic!("shared secrets disagree"),
        }
    }
}

#[test]
fn law_schnorr_round_trip() {
    let ctx = ext_ctx(23, &[0, 1]);
    let ca = FpPolynomialElement::from_vec(&ctx, vec![2]);
    let cb = FpPolynomialElement::from_vec(&ctx, vec![3]);
    let curve = EllipticCurve::new(ca, cb, &ctx).unwrap();
    let g = curve.point(BigUint::from(0u64), BigUint::from(7u64));
    let order = BigUint::from(6u64);

    let private_key = BigUint::from(4u64);
    let nonce = BigUint::from(5u64);
    let pub_key = curve.mul(&private_key, &g).unwrap();
    let message = "string";

    let (s, e) = curve.schnorr_ecfp_sign(&g, &private_key, &nonce, &order, message).unwrap();

    // The challenge must equal an independent digest of the serialized
    // commitment: this fails if any serialization step returns its input.
    let commitment = curve.mul(&nonce, &g).unwrap();
    match &commitment {
        Point::Affine { x, y } => {
            let engine = base64::engine::general_purpose::URL_SAFE_NO_PAD;
            let xs = engine.encode(x.coeffs[0].val.to_bytes_be());
            let ys = engine.encode(y.coeffs[0].val.to_bytes_be());
            let json = format!("{{\"x\":\"{}\",\"y\":\"{}\"}}", xs, ys);
            let text = format!("{}{}", json, message);
            let expected = BigUint::from_bytes_be(&sha2::Sha256::digest(text.as_bytes()));
            assert_eq!(e, expected);
        },
        _ => panic!("Expected affine point"),
    }

    assert!(curve.schnorr_ecfp_verify(&g, &pub_key, message, s.clone(), e.clone()));
    assert!(!curve.schnorr_ecfp_verify(&g, &pub_key, "strinh", s.clone(), e.clone()));
    let bad_s = &s + BigUint::from(1u64);
    assert!(!curve.schnorr_ecfp_verify(&g, &pub_key, message, bad_s, e.clone()));
    let bad_e = &e + BigUint::from(1u64);
    assert!(!curve.schnorr_ecfp_verify(&g, &pub_key, message, s, bad_e));
}

#[test]
fn law_error_variants() {
    assert_eq!(
        FieldContext::new_prime(BigUint::from(1u64)).unwrap_err(),
        FieldError::InvalidField
    );
    assert_eq!(
        FieldContext::new_binary(BigUint::from(1u64)).unwrap_err(),
        FieldError::InvalidField
    );
    assert_eq!(
        FieldContext::new_poly(BigUint::from(17u64), vec![BigUint::from(1u64)]).unwrap_err(),
        FieldError::InvalidField
    );

    let ctx = prime_ctx(17);
    let zero = FpElement::zero(&ctx);
    assert_eq!(zero.inverse().unwrap_err(), FieldError::NonInvertible);

    let bctx = bin_ctx_small();
    let fzero = F2PolynomialElement::zero(&bctx);
    assert_eq!(fzero.inverse().unwrap_err(), FieldError::NonInvertible);

    let pctx = ext_ctx(17, &[3, 1, 1]);
    let pzero = FpPolynomialElement::zero(&pctx);
    assert_eq!(pzero.inverse().unwrap_err(), FieldError::NonInvertible);

    // A singular binary curve: b == 0.
    let ba = F2PolynomialElement::new(&bctx, BigUint::from(1u64));
    let bb = F2PolynomialElement::zero(&bctx);
    assert_eq!(
        BinaryEllipticCurve::new(ba, bb, &bctx).unwrap_err(),
        FieldError::SingularCurve
    );

    // A singular Weierstrass curve: a == 0, b == 0.
    let wa = FpPolynomialElement::zero(&pctx);
    let wb = FpPolynomialElement::zero(&pctx);
    assert_eq!(EllipticCurve::new(wa, wb, &pctx).unwrap_err(), FieldError::SingularCurve);

    // Coefficients from a different field instance are rejected.
    let other = ext_ctx(19, &[3, 1, 1]);
    let oa = FpPolynomialElement::from_vec(&other, vec![2]);
    let ob = FpPolynomialElement::from_vec(&other, vec![3]);
    assert_eq!(EllipticCurve::new(oa, ob, &pctx).unwrap_err(), FieldError::ContextMismatch);
}

#[test]
fn law_gf2_golden_vectors() {
    // The golden GF(2^16) vectors: sum, product and inverse.
    let ctx = bin_ctx_small();
    let a = F2PolynomialElement::new(&ctx, BigUint::from(0b1000101000011101u64));
    let b = F2PolynomialElement::new(&ctx, BigUint::from(0b1010011011000101u64));
    assert_eq!(a.add(&b).coeffs, BigUint::from(0b10110011011000u64));
    assert_eq!(a.mul(&b).coeffs, BigUint::from(0b1110001011001111u64));
    assert_eq!(a.inverse().unwrap().coeffs, BigUint::from(0b111001101011011u64));
}
