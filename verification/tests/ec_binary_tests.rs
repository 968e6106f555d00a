use base64::Engine;
use diffie_hellman::context::FieldContext;
use diffie_hellman::ec_binary::{BinaryEllipticCurve, BinaryPoint};
use diffie_hellman::f2_poly::F2PolynomialElement;
use num::{BigUint, Num};
use sha2::Digest;

fn f2(ctx: &FieldContext, bits: u64) -> F2PolynomialElement {
    F2PolynomialElement::new(ctx, BigUint::from(bits))
}

fn bp_is(point: &BinaryPoint, x: u64, y: u64) -> bool {
    match point {
        BinaryPoint::Affine { x: px, y: py } => {
            px.coeffs == BigUint::from(x) && py.coeffs == BigUint::from(y)
        },
        BinaryPoint::Infinity => false,
    }
}

#[test]
fn test_schnorr_sign() {
    let irreducible = BigUint::from_str_radix(
        "13803492693581127574869511724554050904902217944359662576256527028453377",
        10,
    )
    .unwrap();
    let ctx = FieldContext::new_binary(irreducible).unwrap();

    let a = F2PolynomialElement::new(&ctx, BigUint::from(1u64));
    let b = F2PolynomialElement::new(
        &ctx,
        BigUint::from_str_radix(
            "2760497980029204187078845502377898520307707256259003964398570147123373",
            10,
        )
        .unwrap(),
    );
    let curve = BinaryEllipticCurve::new(a, b, &ctx).unwrap();

    let g_x = F2PolynomialElement::new(
        &ctx,
        BigUint::from_str_radix(
            "6761246501583409083997096882159824046681246465812468867444643442021771",
            10,
        )
        .unwrap(),
    );
    let g_y = F2PolynomialElement::new(
        &ctx,
        BigUint::from_str_radix(
            "6912913004411390932094889411904587007871508723951293564567204383952978",
            10,
        )
        .unwrap(),
    );
    let pub_x = F2PolynomialElement::new(
        &ctx,
        BigUint::from_str_radix(
            "12402295794884592605523544085172117365641327725166099250818921853177136",
            10,
        )
        .unwrap(),
    );
    let pub_y = F2PolynomialElement::new(
        &ctx,
        BigUint::from_str_radix(
            "5768410990405248830209118733282437954417583603301117360400494962850628",
            10,
        )
        .unwrap(),
    );

    let s = BigUint::from_str_radix(
        "2520234969816925095800867241965673325266602350141567129250207801352592",
        10,
    )
    .unwrap();
    let e = BigUint::from_str_radix(
        "75318459842236511478849343242161054881755347063699594280921693336154548583431",
        10,
    )
    .unwrap();

    let r_v_message = "{\"x\":\"h9G2DWCVjGlgJ1Ue11BDkETBRFuleJe2mtXsXsc\",\"y\":\"AHdBlgzbAy5Tre7ENMvnIV_PVurnhf1J-bkol2c\"}string";

    // The digest of that exact commitment text, as this fixture records it.
    let e_v = BigUint::from_str_radix(
        "9199230757432990032429506297410042713924164791025350816076345699126147556838",
        10,
    )
    .unwrap();

    let g = BinaryPoint::Affine { x: g_x, y: g_y };
    let pub_key = BinaryPoint::Affine { x: pub_x, y: pub_y };

    let g_s = curve.mul(&s, &g).unwrap();
    let y_e = curve.mul(&e, &pub_key).unwrap();
    let r = curve.add(&g_s, &y_e).unwrap();

    match r {
        BinaryPoint::Affine { x, y } => {
            let engine = base64::engine::general_purpose::URL_SAFE_NO_PAD;
            let xs = engine.encode(x.coeffs.to_bytes_le());
            let ys = engine.encode(y.coeffs.to_bytes_le());
            let r_v_str = format!("{{\"x\":\"{}\",\"y\":\"{}\"}}", xs, ys);
            let r_v_message_test = format!("{}{}", r_v_str, "string");
            assert_eq!(r_v_message_test, r_v_message);

            let e_v_test = sha2::Sha256::digest(r_v_message_test.as_bytes()).to_vec();
            let e_v_test = BigUint::from_bytes_be(&e_v_test);
            assert_eq!(e_v, e_v_test);
        },
        _ => panic!("Expected affine point"),
    }
}

#[test]
fn test_binary_curve_f2_4() {
    // F_2[x]/(x^4 + x + 1), curve y^2 + xy = x^3 + x^2 + 1.
    let ctx = FieldContext::new_binary(BigUint::from(0b10011u32)).unwrap();
    let a = f2(&ctx, 1);
    let b = f2(&ctx, 1);
    let curve = BinaryEllipticCurve::new(a, b, &ctx).unwrap();

    let p1 = BinaryPoint::Affine { x: f2(&ctx, 0), y: f2(&ctx, 1) };
    let p2 = BinaryPoint::Affine { x: f2(&ctx, 1), y: f2(&ctx, 0b0110) };

    assert!(curve.contains_point(&p1));
    assert!(curve.contains_point(&p2));

    let double_p1 = curve.double(&p1).unwrap();
    assert!(matches!(double_p1, BinaryPoint::Infinity));

    let sum = curve.add(&p1, &p2).unwrap();
    assert!(bp_is(&sum, 1, 0b0111));

    let triple_p1 = curve.mul(&BigUint::from(3u32), &p1).unwrap();
    assert!(bp_is(&triple_p1, 0, 1));

    let order_p1 = curve.mul(&BigUint::from(16u32), &p1).unwrap();
    assert!(matches!(order_p1, BinaryPoint::Infinity));
}

#[test]
fn test_binary_curve_f2_3() {
    // F_2[x]/(x^3 + x + 1), curve y^2 + xy = x^3 + 1.
    let ctx = FieldContext::new_binary(BigUint::from(0b1011u32)).unwrap();
    let a = f2(&ctx, 0);
    let b = f2(&ctx, 1);
    let curve = BinaryEllipticCurve::new(a, b, &ctx).unwrap();

    let p1 = BinaryPoint::Affine { x: f2(&ctx, 0), y: f2(&ctx, 1) };
    assert!(curve.contains_point(&p1));

    let double_p1 = curve.double(&p1).unwrap();
    assert!(matches!(double_p1, BinaryPoint::Infinity));

    let triple_p1 = curve.mul(&BigUint::from(3u32), &p1).unwrap();
    assert!(bp_is(&triple_p1, 0, 1));

    let seven_p1 = curve.mul(&BigUint::from(7u32), &p1).unwrap();
    assert!(bp_is(&seven_p1, 0, 1));

    let order_p1 = curve.mul(&BigUint::from(4u32), &p1).unwrap();
    assert!(matches!(order_p1, BinaryPoint::Infinity));
}

#[test]
fn test_binary_curve_point_doubling() {
    // F_2[x]/(x^4 + x + 1), curve y^2 + xy = x^3 + x^2 + 1.
    let ctx = FieldContext::new_binary(BigUint::from(0b10011u32)).unwrap();
    let a = f2(&ctx, 1);
    let b = f2(&ctx, 1);
    let curve = BinaryEllipticCurve::new(a, b, &ctx).unwrap();

    let p = BinaryPoint::Affine { x: f2(&ctx, 0b0110), y: f2(&ctx, 0b0001) };
    assert!(curve.contains_point(&p));

    let p2 = curve.double(&p).unwrap();
    assert!(bp_is(&p2, 0b0001, 0b0111));

    let p4 = curve.double(&p2).unwrap();
    assert!(bp_is(&p4, 0b0000, 0b0001));

    let p4_mul = curve.mul(&BigUint::from(4u32), &p).unwrap();
    match (&p4, &p4_mul) {
        (
            BinaryPoint::Affine { x: x1, y: y1 },
            BinaryPoint::Affine { x: x2, y: y2 },
        ) => {
            assert_eq!(x1.coeffs, x2.coeffs);
            assert_eq!(y1.coeffs, y2.coeffs);
        },
        _ => panic!("4P should not be point at infinity"),
    }

    assert!(curve.contains_point(&p2));
    assert!(curve.contains_point(&p4));
}
