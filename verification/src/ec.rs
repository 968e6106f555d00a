//! The short-Weierstrass curve `y^2 = x^3 + a*x + b` with coordinates in
//! F_{p^k} (the degree-1 case is the curve over F_p itself): the affine group
//! law, double-and-add scalar multiplication in a plain and a constant-time
//! variant, and the Schnorr challenge equations built on top.

use vstd::prelude::*;
use vstd::arithmetic::div_mod::{lemma_mod_bound, lemma_fundamental_div_mod, lemma_mod_division_less_than_divisor, lemma_div_denominator};
use vstd::arithmetic::power2::pow2;
use crate::gf2::{bit_at, bitlen};
use num::BigUint;
use crate::bigint::{big_nat, big_clone, big_eq, big_is_zero, big_rem, big_bits, big_bit, big_shr, big_add, big_sub, big_mul, big_from_u64};
use crate::context::{FieldContext, lemma_equiv_sym, lemma_equiv_trans};
use crate::fp::{FpElement, gcd_nat, inv_mod, add_mod, sub_mod, mul_mod};
use crate::fp_poly::{FpPolynomialElement, fpp_mul_spec, fpp_one, fpp_zero, fpp_ladder, sconst, sadd, ssub, lemma_fpp_mul_singleton};
use crate::encoding::{compute_challenge, challenge_of, canon_be};
use crate::FieldError;

verus! {

/// A point of the curve: the identity, or an affine pair.
#[derive(Debug)]
pub enum Point {
    Infinity,
    Affine { x: FpPolynomialElement, y: FpPolynomialElement },
}

/// The value of a point: an infinity flag and the two coordinate vectors.
pub open spec fn pt_view(p: &Point) -> (bool, Seq<nat>, Seq<nat>) {
    match p {
        Point::Infinity => (true, Seq::empty(), Seq::empty()),
        Point::Affine { x, y } => (false, x.pv(), y.pv()),
    }
}

/// The identity point's value.
pub open spec fn pt_inf() -> (bool, Seq<nat>, Seq<nat>) {
    (true, Seq::empty(), Seq::empty())
}

/// One doubling step in the value domain: the identity and 2-torsion cases
/// give the identity, and otherwise the tangent construction applies with
/// the slope witnessed by an inverse of `2y` (the inverse of a field element
/// is mathematically unique, so the result is determined).
pub open spec fn ec_double_rel(
    pv: (bool, Seq<nat>, Seq<nat>),
    rv: (bool, Seq<nat>, Seq<nat>),
    av: Seq<nat>,
    irr: Seq<nat>,
    p: nat,
) -> bool {
    let k = (irr.len() - 1) as nat;
    if pv.0 {
        rv == pt_inf()
    } else if pv.2 == fpp_zero(k) {
        rv == pt_inf()
    } else {
        let xv = pv.1;
        let yv = pv.2;
        let den = sadd(yv, yv, p);
        let num = sadd(
            sadd(
                sadd(fpp_mul_spec(xv, xv, irr, p), fpp_mul_spec(xv, xv, irr, p), p),
                fpp_mul_spec(xv, xv, irr, p),
                p,
            ),
            av,
            p,
        );
        exists|iv: Seq<nat>|
            {
                &&& #[trigger] fpp_mul_spec(den, iv, irr, p) == fpp_one(k)
                &&& ({
                    let lam = fpp_mul_spec(num, iv, irr, p);
                    let xr = ssub(ssub(fpp_mul_spec(lam, lam, irr, p), xv, p), xv, p);
                    let yr = ssub(fpp_mul_spec(lam, ssub(xv, xr, p), irr, p), yv, p);
                    rv == (false, xr, yr)
                })
            }
    }
}

/// One addition step in the value domain: identity cases, the inverse pair,
/// delegation to doubling for equal points, and the chord construction with
/// the slope witnessed by an inverse of `x2 - x1`.
pub open spec fn ec_add_rel(
    p1: (bool, Seq<nat>, Seq<nat>),
    p2: (bool, Seq<nat>, Seq<nat>),
    rv: (bool, Seq<nat>, Seq<nat>),
    av: Seq<nat>,
    irr: Seq<nat>,
    p: nat,
) -> bool {
    let k = (irr.len() - 1) as nat;
    if p1.0 {
        rv == p2
    } else if p2.0 {
        rv == p1
    } else if p1.1 == p2.1 {
        if p1.2 == p2.2 {
            ec_double_rel(p1, rv, av, irr, p)
        } else {
            rv == pt_inf()
        }
    } else {
        let den = ssub(p2.1, p1.1, p);
        let num = ssub(p2.2, p1.2, p);
        exists|iv: Seq<nat>|
            {
                &&& #[trigger] fpp_mul_spec(den, iv, irr, p) == fpp_one(k)
                &&& ({
                    let lam = fpp_mul_spec(num, iv, irr, p);
                    let xr = ssub(ssub(fpp_mul_spec(lam, lam, irr, p), p1.1, p), p2.1, p);
                    let yr = ssub(fpp_mul_spec(lam, ssub(p1.1, xr, p), irr, p), p1.2, p);
                    rv == (false, xr, yr)
                })
            }
    }
}

/// One double-and-add pass over the scalar's bits, recorded explicitly: the
/// doubling track `temps` starts at the input point, the accumulator track
/// `accs` starts at the identity, step `i` doubles the track point and adds
/// it into the accumulator exactly when bit `i` of the scalar is set, and
/// the pass runs until the scalar's bits are exhausted.  The slope witnesses
/// inside each step are mathematically unique, so the final accumulator is
/// determined by the scalar and the input point.
/// Step `i` of a recorded pass: the track point doubles, and the
/// accumulator absorbs it exactly when bit `i` of the scalar is set.
pub open spec fn ec_chain_step(
    kv: nat,
    temps: Seq<(bool, Seq<nat>, Seq<nat>)>,
    accs: Seq<(bool, Seq<nat>, Seq<nat>)>,
    i: int,
    av: Seq<nat>,
    irr: Seq<nat>,
    p: nat,
) -> bool {
    &&& ec_double_rel(temps[i], temps[i + 1], av, irr, p)
    &&& (if bit_at(kv, i as nat) {
        ec_add_rel(accs[i], temps[i], accs[i + 1], av, irr, p)
    } else {
        accs[i + 1] == accs[i]
    })
}

pub open spec fn ec_chain_ok(
    kv: nat,
    start: (bool, Seq<nat>, Seq<nat>),
    temps: Seq<(bool, Seq<nat>, Seq<nat>)>,
    accs: Seq<(bool, Seq<nat>, Seq<nat>)>,
    result: (bool, Seq<nat>, Seq<nat>),
    av: Seq<nat>,
    irr: Seq<nat>,
    p: nat,
) -> bool {
    let n = temps.len();
    &&& n >= 1
    &&& accs.len() == n
    &&& temps[0] == start
    &&& accs[0] == pt_inf()
    &&& result == accs[n - 1]
    &&& kv / pow2((n - 1) as nat) == 0
    &&& forall|i: int| 0 <= i < n - 1 ==> #[trigger] ec_chain_step(kv, temps, accs, i, av, irr, p)
}

/// The scalar relates a point to a result when some recorded double-and-add
/// pass connects them.
pub open spec fn ec_scalar_rel(
    kv: nat,
    start: (bool, Seq<nat>, Seq<nat>),
    result: (bool, Seq<nat>, Seq<nat>),
    av: Seq<nat>,
    irr: Seq<nat>,
    p: nat,
) -> bool {
    exists|temps: Seq<(bool, Seq<nat>, Seq<nat>)>, accs: Seq<(bool, Seq<nat>, Seq<nat>)>|
        #[trigger] ec_chain_ok(kv, start, temps, accs, result, av, irr, p)
}

/// Law: the constant-time ladder relates the same points as the plain one
/// whenever the scalar is already reduced below the subgroup order; this is
/// the relation between what `mul` and `mul_secure` return.
pub proof fn lemma_ec_mul_secure_consistent(
    kv: nat,
    order: nat,
    start: (bool, Seq<nat>, Seq<nat>),
    result: (bool, Seq<nat>, Seq<nat>),
    av: Seq<nat>,
    irr: Seq<nat>,
    p: nat,
)
    requires
        0 < order,
        kv < order,
    ensures
        ec_scalar_rel(kv % order, start, result, av, irr, p) == ec_scalar_rel(
            kv,
            start,
            result,
            av,
            irr,
            p,
        ),
{
    vstd::arithmetic::div_mod::lemma_small_mod(kv, order);
}

/// Law: the identity is neutral in the value-domain addition.
pub proof fn lemma_ec_add_infinity(
    pv: (bool, Seq<nat>, Seq<nat>),
    av: Seq<nat>,
    irr: Seq<nat>,
    p: nat,
)
    requires
        pv.0 ==> pv == pt_inf(),
    ensures
        ec_add_rel(pv, pt_inf(), pv, av, irr, p),
        ec_add_rel(pt_inf(), pv, pv, av, irr, p),
{
}

/// Law: adding a point to itself is doubling, in the value domain.
pub proof fn lemma_ec_add_self(
    pv: (bool, Seq<nat>, Seq<nat>),
    rv: (bool, Seq<nat>, Seq<nat>),
    av: Seq<nat>,
    irr: Seq<nat>,
    p: nat,
)
    requires
        pv.0 ==> pv == pt_inf(),
    ensures
        ec_add_rel(pv, pv, rv, av, irr, p) == ec_double_rel(pv, rv, av, irr, p),
{
}

/// The accumulator track is constant across steps whose scalar bit is zero.
proof fn lemma_ec_accs_const(
    kv: nat,
    accs: Seq<(bool, Seq<nat>, Seq<nat>)>,
    temps: Seq<(bool, Seq<nat>, Seq<nat>)>,
    lo: int,
    av: Seq<nat>,
    irr: Seq<nat>,
    p: nat,
)
    requires
        accs.len() == temps.len(),
        0 <= lo < accs.len(),
        forall|i: int| 0 <= i < temps.len() - 1 ==> #[trigger] ec_chain_step(
            kv,
            temps,
            accs,
            i,
            av,
            irr,
            p,
        ),
        forall|i: int| lo <= i < accs.len() - 1 ==> !#[trigger] bit_at(kv, i as nat),
    ensures
        accs[accs.len() - 1] == accs[lo],
    decreases accs.len() - lo,
{
    if lo < accs.len() - 1 {
        assert(ec_chain_step(kv, temps, accs, lo, av, irr, p));
        assert(!bit_at(kv, lo as nat));
        assert(accs[lo + 1] == accs[lo]);
        lemma_ec_accs_const(kv, accs, temps, lo + 1, av, irr, p);
    }
}

/// Bits at or above the value's width are clear.
proof fn lemma_small_scalar_bit(kv: nat, i: nat)
    requires
        kv < pow2(i),
    ensures
        !bit_at(kv, i),
{
    vstd::arithmetic::power2::lemma_pow2_pos(i);
    vstd::arithmetic::div_mod::lemma_basic_div(kv as int, pow2(i) as int);
}

/// Law: multiplying by zero reaches only the identity.
pub proof fn lemma_ec_mul_zero(
    start: (bool, Seq<nat>, Seq<nat>),
    result: (bool, Seq<nat>, Seq<nat>),
    av: Seq<nat>,
    irr: Seq<nat>,
    p: nat,
)
    requires
        ec_scalar_rel(0, start, result, av, irr, p),
    ensures
        result == pt_inf(),
{
    let (temps, accs) = choose|
        temps: Seq<(bool, Seq<nat>, Seq<nat>)>,
        accs: Seq<(bool, Seq<nat>, Seq<nat>)>,
    | #[trigger] ec_chain_ok(0, start, temps, accs, result, av, irr, p);
    assert(ec_chain_ok(0, start, temps, accs, result, av, irr, p));
    assert forall|i: int| 0 <= i < accs.len() - 1 implies !#[trigger] bit_at(0, i as nat) by {
        vstd::arithmetic::power2::lemma_pow2_pos(i as nat);
        lemma_small_scalar_bit(0, i as nat);
    }
    lemma_ec_accs_const(0, accs, temps, 0, av, irr, p);
}

/// Law: multiplying by one reaches only the point itself.
pub proof fn lemma_ec_mul_one(
    start: (bool, Seq<nat>, Seq<nat>),
    result: (bool, Seq<nat>, Seq<nat>),
    av: Seq<nat>,
    irr: Seq<nat>,
    p: nat,
)
    requires
        ec_scalar_rel(1, start, result, av, irr, p),
        start.0 ==> start == pt_inf(),
    ensures
        result == start,
{
    let (temps, accs) = choose|
        temps: Seq<(bool, Seq<nat>, Seq<nat>)>,
        accs: Seq<(bool, Seq<nat>, Seq<nat>)>,
    | #[trigger] ec_chain_ok(1, start, temps, accs, result, av, irr, p);
    assert(ec_chain_ok(1, start, temps, accs, result, av, irr, p));
    vstd::arithmetic::power2::lemma2_to64();
    // One bit is consumed, so the pass has at least one step.
    assert(temps.len() >= 2) by {
        if temps.len() == 1 {
            assert(1nat / pow2(0) == 1);
        }
    };
    assert(bit_at(1, 0)) by {
        assert(1nat / pow2(0) == 1);
    };
    assert(ec_chain_step(1, temps, accs, 0, av, irr, p));
    assert(accs[1] == start);
    assert forall|i: int| 1 <= i < accs.len() - 1 implies !#[trigger] bit_at(1, i as nat) by {
        assert(pow2(1) == 2);
        if i > 1 {
            vstd::arithmetic::power2::lemma_pow2_strictly_increases(1, i as nat);
        }
        lemma_small_scalar_bit(1, i as nat);
    }
    lemma_ec_accs_const(1, accs, temps, 1, av, irr, p);
}

/// Law: any result of multiplying by two is a doubling of the point, in the
/// value domain.
pub proof fn lemma_ec_mul_two(
    start: (bool, Seq<nat>, Seq<nat>),
    result: (bool, Seq<nat>, Seq<nat>),
    av: Seq<nat>,
    irr: Seq<nat>,
    p: nat,
)
    requires
        ec_scalar_rel(2, start, result, av, irr, p),
    ensures
        ec_double_rel(start, result, av, irr, p),
{
    let (temps, accs) = choose|
        temps: Seq<(bool, Seq<nat>, Seq<nat>)>,
        accs: Seq<(bool, Seq<nat>, Seq<nat>)>,
    | #[trigger] ec_chain_ok(2, start, temps, accs, result, av, irr, p);
    assert(ec_chain_ok(2, start, temps, accs, result, av, irr, p));
    vstd::arithmetic::power2::lemma2_to64();
    // Two bits are consumed, so the pass has at least two steps.
    assert(temps.len() >= 3) by {
        if temps.len() == 1 {
            assert(2nat / pow2(0) == 2);
        }
        if temps.len() == 2 {
            assert(2nat / pow2(1) == 1);
        }
    };
    assert(!bit_at(2, 0)) by {
        assert(2nat / pow2(0) == 2);
    };
    assert(bit_at(2, 1)) by {
        assert(2nat / pow2(1) == 1);
    };
    assert(ec_chain_step(2, temps, accs, 0, av, irr, p));
    assert(accs[1] == accs[0]);
    assert(ec_chain_step(2, temps, accs, 1, av, irr, p));
    assert(accs[2] == temps[1]);
    assert(ec_double_rel(temps[0], temps[1], av, irr, p));
    assert forall|i: int| 2 <= i < accs.len() - 1 implies !#[trigger] bit_at(2, i as nat) by {
        assert(pow2(2) == 4);
        if i > 2 {
            vstd::arithmetic::power2::lemma_pow2_strictly_increases(2, i as nat);
        }
        lemma_small_scalar_bit(2, i as nat);
    }
    lemma_ec_accs_const(2, accs, temps, 2, av, irr, p);
}

/// The value of a point of the degree-1 curve: an infinity flag and the two
/// constant coordinates.
pub open spec fn pt1_view(p: &Point) -> (bool, nat, nat) {
    match p {
        Point::Infinity => (true, 0, 0),
        Point::Affine { x, y } => (false, x.pv()[0], y.pv()[0]),
    }
}

/// Doubling on the degree-1 curve is a total function: the identity and
/// 2-torsion cases give the identity, the tangent construction applies when
/// `2y` is a unit, and otherwise no result exists.
pub open spec fn ec1_double_spec(pt: (bool, nat, nat), a0: nat, p: nat) -> Option<(bool, nat, nat)> {
    if pt.0 {
        Option::Some((true, 0, 0))
    } else if pt.2 == 0 {
        Option::Some((true, 0, 0))
    } else {
        let den = add_mod(pt.2, pt.2, p);
        if gcd_nat(den, p) != 1 {
            Option::None
        } else {
            let m = mul_mod(pt.1, pt.1, p);
            let num = add_mod(add_mod(add_mod(m, m, p), m, p), a0, p);
            let lam = mul_mod(num, inv_mod(den, p), p);
            let xr = sub_mod(sub_mod(mul_mod(lam, lam, p), pt.1, p), pt.1, p);
            let yr = sub_mod(mul_mod(lam, sub_mod(pt.1, xr, p), p), pt.2, p);
            Option::Some((false, xr, yr))
        }
    }
}

/// Addition on the degree-1 curve is a total function: identity cases, the
/// inverse pair, doubling for equal points, and the chord construction when
/// `x2 - x1` is a unit.
pub open spec fn ec1_add_spec(
    p1: (bool, nat, nat),
    p2: (bool, nat, nat),
    a0: nat,
    p: nat,
) -> Option<(bool, nat, nat)> {
    if p1.0 {
        Option::Some(p2)
    } else if p2.0 {
        Option::Some(p1)
    } else if p1.1 == p2.1 {
        if p1.2 == p2.2 {
            ec1_double_spec(p1, a0, p)
        } else {
            Option::Some((true, 0, 0))
        }
    } else {
        let den = sub_mod(p2.1, p1.1, p);
        if gcd_nat(den, p) != 1 {
            Option::None
        } else {
            let lam = mul_mod(sub_mod(p2.2, p1.2, p), inv_mod(den, p), p);
            let xr = sub_mod(sub_mod(mul_mod(lam, lam, p), p1.1, p), p2.1, p);
            let yr = sub_mod(mul_mod(lam, sub_mod(p1.1, xr, p), p), p1.2, p);
            Option::Some((false, xr, yr))
        }
    }
}

/// Double-and-add on the degree-1 curve, consuming the scalar from its
/// lowest bit up; a failing step fails the whole pass.
pub open spec fn ec1_mul_ladder(
    kv: nat,
    t: (bool, nat, nat),
    acc: (bool, nat, nat),
    a0: nat,
    p: nat,
) -> Option<(bool, nat, nat)>
    decreases kv,
{
    if kv == 0 {
        Option::Some(acc)
    } else {
        let acc2 = if kv % 2 == 1 {
            ec1_add_spec(acc, t, a0, p)
        } else {
            Option::Some(acc)
        };
        match acc2 {
            Option::None => Option::None,
            Option::Some(acc2v) => match ec1_double_spec(t, a0, p) {
                Option::None => Option::None,
                Option::Some(t2) => ec1_mul_ladder(kv / 2, t2, acc2v, a0, p),
            },
        }
    }
}

/// Schnorr verification on the degree-1 curve, as a total function: the
/// commitment `s*g + e*Y` is recomputed, and the signature is valid exactly
/// when every group operation succeeds, the commitment is affine, and the
/// challenge digest of its serialized coordinates and the message equals `e`.
pub open spec fn ec1_verify_spec(
    sv: nat,
    ev: nat,
    gv: (bool, nat, nat),
    yv: (bool, nat, nat),
    message: Seq<char>,
    a0: nat,
    p: nat,
) -> bool {
    match ec1_mul_ladder(sv, gv, (true, 0, 0), a0, p) {
        Option::None => false,
        Option::Some(sp) => match ec1_mul_ladder(ev, yv, (true, 0, 0), a0, p) {
            Option::None => false,
            Option::Some(ep) => match ec1_add_spec(sp, ep, a0, p) {
                Option::None => false,
                Option::Some(rv) => !rv.0 && challenge_of(
                    canon_be(rv.1),
                    canon_be(rv.2),
                    message,
                ) == ev,
            },
        },
    }
}

/// The curve `y^2 = x^3 + a*x + b` over F_{p^k}; non-singular exactly when
/// `4a^3 + 27b^2` is nonzero.
#[derive(Debug)]
pub struct EllipticCurve {
    pub a: FpPolynomialElement,
    pub b: FpPolynomialElement,
    pub ctx: FieldContext,
}

impl EllipticCurve {
    pub open spec fn wf(&self) -> bool {
        &&& self.ctx.wf()
        &&& self.ctx is Extension
        &&& self.a.wf()
        &&& self.b.wf()
        &&& self.a.ctx.equiv(&self.ctx)
        &&& self.b.ctx.equiv(&self.ctx)
    }

    /// The prime modulus of the coefficient field.
    pub open spec fn p(&self) -> nat {
        self.ctx.prime_nat()
    }

    /// The irreducible polynomial's coefficients.
    pub open spec fn irr(&self) -> Seq<nat> {
        self.ctx.irr_seq()
    }

    /// The extension degree.
    pub open spec fn k(&self) -> nat {
        self.ctx.ext_degree()
    }

    /// A point lies in this curve's field.
    pub open spec fn point_wf(&self, p: &Point) -> bool {
        match p {
            Point::Infinity => true,
            Point::Affine { x, y } => {
                &&& x.wf()
                &&& y.wf()
                &&& x.ctx.equiv(&self.ctx)
                &&& y.ctx.equiv(&self.ctx)
            },
        }
    }

    /// Builds the curve after the non-singularity check: `4a^3 + 27b^2` must
    /// be nonzero, and both coefficients must come from the given context.
    pub fn new(a: FpPolynomialElement, b: FpPolynomialElement, ctx: &FieldContext) -> (r: Result<
        EllipticCurve,
        FieldError,
    >)
        requires
            ctx.wf(),
            ctx is Extension,
            a.wf(),
            b.wf(),
        ensures
            r is Ok ==> {
                &&& r->Ok_0.wf()
                &&& r->Ok_0.ctx.equiv(ctx)
                &&& r->Ok_0.a.pv() == a.pv()
                &&& r->Ok_0.b.pv() == b.pv()
                &&& a.ctx.equiv(ctx)
                &&& b.ctx.equiv(ctx)
            },
            (a.ctx.equiv(ctx) && b.ctx.equiv(ctx)) ==> {
                // Succeeds exactly when the discriminant quantity
                // 4*a^3 + 27*b^2 is nonzero.
                let k = ctx.ext_degree();
                let irr = ctx.irr_seq();
                let p = ctx.prime_nat();
                let disc = sadd(
                    fpp_mul_spec(
                        fpp_ladder(a.pv(), 3, fpp_one(k), irr, p),
                        sconst(4nat % p, k),
                        irr,
                        p,
                    ),
                    fpp_mul_spec(
                        fpp_ladder(b.pv(), 2, fpp_one(k), irr, p),
                        sconst(27nat % p, k),
                        irr,
                        p,
                    ),
                    p,
                );
                r is Ok <==> disc != fpp_zero(k)
            },
            r is Err ==> (r->Err_0 == FieldError::ContextMismatch || r->Err_0
                == FieldError::SingularCurve),
    {
        if !a.ctx.same_instance(ctx) || !b.ctx.same_instance(ctx) {
            return Err(FieldError::ContextMismatch);
        }
        let three = big_from_u64(3);
        let two = big_from_u64(2);
        let a3 = a.pow(&three);
        let b2 = b.pow(&two);
        proof {
            lemma_equiv_sym(&a.ctx, ctx);
            lemma_equiv_trans(&a3.ctx, &a.ctx, ctx);
            lemma_equiv_trans(&b2.ctx, &b.ctx, ctx);
        }
        let four = FpPolynomialElement::from_fp(ctx, FpElement::new(ctx, big_from_u64(4)));
        let twentyseven = FpPolynomialElement::from_fp(ctx, FpElement::new(ctx, big_from_u64(27)));
        proof {
            lemma_equiv_sym(&four.ctx, ctx);
            lemma_equiv_trans(&a3.ctx, ctx, &four.ctx);
            lemma_equiv_sym(&twentyseven.ctx, ctx);
            lemma_equiv_trans(&b2.ctx, ctx, &twentyseven.ctx);
        }
        let lhs = a3.mul(&four);
        let rhs = b2.mul(&twentyseven);
        proof {
            lemma_equiv_trans(&lhs.ctx, &a3.ctx, ctx);
            lemma_equiv_trans(&rhs.ctx, &b2.ctx, ctx);
            lemma_equiv_sym(&rhs.ctx, ctx);
            lemma_equiv_trans(&lhs.ctx, ctx, &rhs.ctx);
        }
        let disc = lhs.add(&rhs);
        proof {
            let k = ctx.ext_degree();
            let p = ctx.prime_nat();
            assert(four.pv() =~= sconst(4nat % p, k));
            assert(twentyseven.pv() =~= sconst(27nat % p, k));
            assert(disc.pv() =~= sadd(lhs.pv(), rhs.pv(), p));
        }
        if disc.is_zero() {
            return Err(FieldError::SingularCurve);
        }
        Ok(EllipticCurve { a, b, ctx: ctx.clone() })
    }

    /// Brings a point's coordinates into each other's field.
    proof fn lemma_coords(&self, x: &FpPolynomialElement, y: &FpPolynomialElement)
        requires
            self.wf(),
            x.wf(),
            y.wf(),
            x.ctx.equiv(&self.ctx),
            y.ctx.equiv(&self.ctx),
        ensures
            x.same_field(y),
            y.same_field(x),
            x.p() == self.p(),
            y.p() == self.p(),
            x.irr() == self.irr(),
            y.irr() == self.irr(),
            x.k() == self.k(),
            y.k() == self.k(),
            x.same_field(x),
            y.same_field(y),
    {
        lemma_equiv_sym(&y.ctx, &self.ctx);
        lemma_equiv_trans(&x.ctx, &self.ctx, &y.ctx);
        lemma_equiv_sym(&x.ctx, &y.ctx);
        lemma_equiv_sym(&x.ctx, &self.ctx);
        lemma_equiv_trans(&x.ctx, &self.ctx, &x.ctx);
        lemma_equiv_trans(&y.ctx, &self.ctx, &y.ctx);
    }

    /// Whether the point satisfies `y^2 = x^3 + a*x + b`; the identity
    /// always does.
    pub fn contains_point(&self, point: &Point) -> (r: bool)
        requires
            self.wf(),
            self.point_wf(point),
        ensures
            r <==> (match point {
                Point::Infinity => true,
                Point::Affine { x, y } => fpp_mul_spec(y.pv(), y.pv(), self.irr(), self.p())
                    == sadd(
                    sadd(
                        fpp_mul_spec(
                            fpp_mul_spec(x.pv(), x.pv(), self.irr(), self.p()),
                            x.pv(),
                            self.irr(),
                            self.p(),
                        ),
                        fpp_mul_spec(self.a.pv(), x.pv(), self.irr(), self.p()),
                        self.p(),
                    ),
                    self.b.pv(),
                    self.p(),
                ),
            }),
    {
        match point {
            Point::Infinity => true,
            Point::Affine { x, y } => {
                proof {
                    self.lemma_coords(x, y);
                }
                let y2 = y.mul(y);
                let x2 = x.mul(x);
                proof {
                    lemma_equiv_trans(&x2.ctx, &x.ctx, &self.ctx);
                    lemma_equiv_sym(&x2.ctx, &self.ctx);
                    lemma_equiv_trans(&x2.ctx, &self.ctx, &x.ctx)
                }
                let x3 = x2.mul(x);
                proof {
                    lemma_equiv_trans(&x3.ctx, &x2.ctx, &self.ctx);
                    lemma_equiv_sym(&x.ctx, &self.ctx);
                    lemma_equiv_trans(&self.a.ctx, &self.ctx, &x.ctx);
                    lemma_equiv_sym(&self.a.ctx, &x.ctx);
                }
                let ax = self.a.mul(x);
                proof {
                    lemma_equiv_trans(&ax.ctx, &self.a.ctx, &self.ctx);
                    lemma_equiv_sym(&ax.ctx, &self.ctx);
                    lemma_equiv_trans(&x3.ctx, &self.ctx, &ax.ctx);
                }
                let s1 = x3.add(&ax);
                proof {
                    lemma_equiv_trans(&s1.ctx, &x3.ctx, &self.ctx);
                    lemma_equiv_sym(&s1.ctx, &self.ctx);
                    lemma_equiv_trans(&self.b.ctx, &self.ctx, &s1.ctx);
                    lemma_equiv_sym(&self.b.ctx, &s1.ctx);
                }
                let rhs = s1.add(&self.b);
                proof {
                    lemma_equiv_trans(&y2.ctx, &y.ctx, &self.ctx);
                    lemma_equiv_trans(&rhs.ctx, &s1.ctx, &self.ctx);
                    assert(s1.pv() =~= sadd(x3.pv(), ax.pv(), self.p()));
                    assert(rhs.pv() =~= sadd(s1.pv(), self.b.pv(), self.p()));
                }
                Self::eq_elements(&y2, &rhs)
            },
        }
    }

    /// Compares two elements coefficient-wise.
    fn eq_elements(a: &FpPolynomialElement, b: &FpPolynomialElement) -> (r: bool)
        requires
            a.wf(),
            b.wf(),
        ensures
            r <==> a.pv() == b.pv(),
    {
        if a.coeffs.len() != b.coeffs.len() {
            proof {
                assert(a.pv().len() != b.pv().len());
            }
            return false;
        }
        let mut i: usize = 0;
        let mut same = true;
        while i < a.coeffs.len()
            invariant
                a.wf(),
                b.wf(),
                a.coeffs@.len() == b.coeffs@.len(),
                i <= a.coeffs@.len(),
                same ==> forall|j: int| 0 <= j < i as int ==> a.pv()[j] == b.pv()[j],
                !same ==> exists|j: int| 0 <= j < i as int && a.pv()[j] != b.pv()[j],
            decreases a.coeffs.len() - i,
        {
            if !big_eq(&a.coeffs[i].val, &b.coeffs[i].val) {
                same = false;
                proof {
                    assert(a.pv()[i as int] != b.pv()[i as int]);
                }
            }
            i += 1;
        }
        proof {
            if same {
                assert(a.pv() =~= b.pv());
            } else {
                let j = choose|j: int| 0 <= j < a.pv().len() && a.pv()[j] != b.pv()[j];
                assert(a.pv()[j] != b.pv()[j]);
            }
        }
        same
    }

    /// Copies a point of this curve's field.
    fn clone_point(&self, p: &Point) -> (r: Point)
        requires
            self.wf(),
            self.point_wf(p),
        ensures
            self.point_wf(&r),
            pt_view(&r) == pt_view(p),
    {
        match p {
            Point::Infinity => Point::Infinity,
            Point::Affine { x, y } => {
                let xc = x.clone();
                let yc = y.clone();
                proof {
                    lemma_equiv_trans(&xc.ctx, &x.ctx, &self.ctx);
                    lemma_equiv_trans(&yc.ctx, &y.ctx, &self.ctx);
                }
                Point::Affine { x: xc, y: yc }
            },
        }
    }

    /// Doubles a point: the identity and the 2-torsion case (`y == 0`) give
    /// the identity; otherwise the tangent construction with
    /// `lambda = (3x^2 + a) / (2y)`, where the division is witnessed by an
    /// inverse of `2y`.
    pub fn double(&self, point: &Point) -> (r: Result<Point, FieldError>)
        requires
            self.wf(),
            self.point_wf(point),
        ensures
            r is Ok ==> self.point_wf(&r->Ok_0),
            r is Ok ==> ec_double_rel(
                pt_view(point),
                pt_view(&r->Ok_0),
                self.a.pv(),
                self.irr(),
                self.p(),
            ),
            pt_view(point).0 ==> r is Ok && pt_view(&r->Ok_0).0,
            (!pt_view(point).0 && pt_view(point).2 == fpp_zero(self.k())) ==> r is Ok && pt_view(
                &r->Ok_0,
            ).0,
            // In the degree-1 field doubling succeeds whenever the tangent
            // denominator 2y is a unit.
            (self.k() == 1 && !pt_view(point).0 && pt_view(point).2 != fpp_zero(self.k())
                && gcd_nat(
                sadd(pt_view(point).2, pt_view(point).2, self.p())[0],
                self.p(),
            ) == 1) ==> r is Ok,
            // In the degree-1 field doubling is the exact total function of
            // the point's constant coordinates.
            self.k() == 1 ==> (match ec1_double_spec(pt1_view(point), self.a.pv()[0], self.p()) {
                Option::Some(res) => r is Ok && pt1_view(&r->Ok_0) == res,
                Option::None => r is Err,
            }),
            (r is Ok && !pt_view(point).0 && pt_view(point).2 != fpp_zero(self.k())) ==> ({
                let xv = pt_view(point).1;
                let yv = pt_view(point).2;
                let den = sadd(yv, yv, self.p());
                let num = sadd(
                    sadd(
                        sadd(
                            fpp_mul_spec(xv, xv, self.irr(), self.p()),
                            fpp_mul_spec(xv, xv, self.irr(), self.p()),
                            self.p(),
                        ),
                        fpp_mul_spec(xv, xv, self.irr(), self.p()),
                        self.p(),
                    ),
                    self.a.pv(),
                    self.p(),
                );
                exists|iv: Seq<nat>|
                    {
                        &&& #[trigger] fpp_mul_spec(den, iv, self.irr(), self.p()) == fpp_one(
                            self.k(),
                        )
                        &&& ({
                            let lam = fpp_mul_spec(num, iv, self.irr(), self.p());
                            let xr = ssub(
                                ssub(
                                    fpp_mul_spec(lam, lam, self.irr(), self.p()),
                                    xv,
                                    self.p(),
                                ),
                                xv,
                                self.p(),
                            );
                            let yr = ssub(
                                fpp_mul_spec(lam, ssub(xv, xr, self.p()), self.irr(), self.p()),
                                yv,
                                self.p(),
                            );
                            !pt_view(&r->Ok_0).0 && pt_view(&r->Ok_0).1 == xr && pt_view(
                                &r->Ok_0,
                            ).2 == yr
                        })
                    }
            }),
            r is Err ==> r->Err_0 == FieldError::NonInvertible,
    {
        match point {
            Point::Infinity => Ok(Point::Infinity),
            Point::Affine { x, y } => {
                proof {
                    self.lemma_coords(x, y);
                    if self.k() == 1 {
                        assert(y.pv() =~= seq![y.pv()[0]]);
                        assert(fpp_zero(1nat) =~= seq![0nat]);
                    }
                }
                if y.is_zero() {
                    return Ok(Point::Infinity);
                }
                let x2 = x.mul(x);
                proof {
                    lemma_equiv_trans(&x2.ctx, &x.ctx, &self.ctx);
                    lemma_equiv_sym(&x2.ctx, &self.ctx);
                    lemma_equiv_trans(&x2.ctx, &self.ctx, &x2.ctx);
                }
                let s1 = x2.add(&x2);
                proof {
                    lemma_equiv_trans(&s1.ctx, &x2.ctx, &self.ctx);
                    lemma_equiv_sym(&s1.ctx, &self.ctx);
                    lemma_equiv_trans(&x2.ctx, &self.ctx, &s1.ctx);
                    lemma_equiv_sym(&x2.ctx, &s1.ctx);
                }
                let s2 = s1.add(&x2);
                proof {
                    lemma_equiv_trans(&s2.ctx, &s1.ctx, &self.ctx);
                    lemma_equiv_sym(&s2.ctx, &self.ctx);
                    lemma_equiv_trans(&self.a.ctx, &self.ctx, &s2.ctx);
                    lemma_equiv_sym(&self.a.ctx, &s2.ctx);
                }
                let numerator = s2.add(&self.a);
                let denominator = y.add(y);
                proof {
                    lemma_equiv_trans(&numerator.ctx, &s2.ctx, &self.ctx);
                    lemma_equiv_trans(&denominator.ctx, &y.ctx, &self.ctx);
                    lemma_equiv_sym(&denominator.ctx, &self.ctx);
                    lemma_equiv_trans(&numerator.ctx, &self.ctx, &denominator.ctx);
                    assert(denominator.pv() =~= sadd(y.pv(), y.pv(), self.p()));
                    assert(numerator.k() == self.k() && numerator.p() == self.p());
                    if self.k() == 1 {
                        let p0 = self.p();
                        let x0 = x.pv()[0];
                        let y0 = y.pv()[0];
                        assert(x.pv() =~= seq![x0]);
                        lemma_fpp_mul_singleton(x0, x0, self.irr(), p0);
                        assert(x2.pv()[0] == mul_mod(x0, x0, p0));
                        assert(s1.pv()[0] == add_mod(x2.pv()[0], x2.pv()[0], p0));
                        assert(s2.pv()[0] == add_mod(s1.pv()[0], x2.pv()[0], p0));
                        assert(numerator.pv()[0] == add_mod(s2.pv()[0], self.a.pv()[0], p0));
                        assert(denominator.pv()[0] == add_mod(y0, y0, p0));
                    }
                }
                let lambda = match numerator.div(&denominator) {
                    Ok(v) => v,
                    Err(_) => {
                        return Err(FieldError::NonInvertible);
                    },
                };
                proof {
                    lemma_equiv_trans(&lambda.ctx, &numerator.ctx, &self.ctx);
                    lemma_equiv_sym(&lambda.ctx, &self.ctx);
                    lemma_equiv_trans(&lambda.ctx, &self.ctx, &lambda.ctx);
                }
                let lambda2 = lambda.mul(&lambda);
                proof {
                    lemma_equiv_trans(&lambda2.ctx, &lambda.ctx, &self.ctx);
                    lemma_equiv_sym(&lambda2.ctx, &self.ctx);
                    lemma_equiv_trans(&x.ctx, &self.ctx, &lambda2.ctx);
                    lemma_equiv_sym(&x.ctx, &lambda2.ctx);
                }
                let t1 = lambda2.sub(x);
                proof {
                    lemma_equiv_trans(&t1.ctx, &lambda2.ctx, &self.ctx);
                    lemma_equiv_sym(&t1.ctx, &self.ctx);
                    lemma_equiv_trans(&x.ctx, &self.ctx, &t1.ctx);
                    lemma_equiv_sym(&x.ctx, &t1.ctx);
                }
                let x_r = t1.sub(x);
                proof {
                    lemma_equiv_trans(&x_r.ctx, &t1.ctx, &self.ctx);
                    lemma_equiv_sym(&x_r.ctx, &self.ctx);
                    lemma_equiv_trans(&x.ctx, &self.ctx, &x_r.ctx);
                }
                let xd = x.sub(&x_r);
                proof {
                    lemma_equiv_trans(&xd.ctx, &x.ctx, &self.ctx);
                    lemma_equiv_sym(&xd.ctx, &self.ctx);
                    lemma_equiv_trans(&lambda.ctx, &self.ctx, &xd.ctx);
                }
                let t2 = lambda.mul(&xd);
                proof {
                    lemma_equiv_trans(&t2.ctx, &lambda.ctx, &self.ctx);
                    lemma_equiv_sym(&t2.ctx, &self.ctx);
                    lemma_equiv_trans(&y.ctx, &self.ctx, &t2.ctx);
                    lemma_equiv_sym(&y.ctx, &t2.ctx);
                }
                let y_r = t2.sub(y);
                proof {
                    lemma_equiv_trans(&y_r.ctx, &t2.ctx, &self.ctx);
                    let p = self.p();
                    assert(s1.pv() =~= sadd(x2.pv(), x2.pv(), p));
                    assert(s2.pv() =~= sadd(s1.pv(), x2.pv(), p));
                    assert(numerator.pv() =~= sadd(s2.pv(), self.a.pv(), p));
                    assert(denominator.pv() =~= sadd(y.pv(), y.pv(), p));
                    assert(t1.pv() =~= ssub(lambda2.pv(), x.pv(), p));
                    assert(x_r.pv() =~= ssub(t1.pv(), x.pv(), p));
                    assert(xd.pv() =~= ssub(x.pv(), x_r.pv(), p));
                    assert(y_r.pv() =~= ssub(t2.pv(), y.pv(), p));
                    if y.pv() == fpp_zero(self.k()) {
                        assert(forall|j: int| 0 <= j < y.pv().len() ==> y.pv()[j] == 0);
                        assert(false);
                    }
                    if self.k() == 1 {
                        let lam0 = lambda.pv()[0];
                        assert(lambda.pv() =~= seq![lam0]);
                        lemma_fpp_mul_singleton(lam0, lam0, self.irr(), p);
                        assert(lambda2.pv()[0] == mul_mod(lam0, lam0, p));
                        assert(xd.pv() =~= seq![xd.pv()[0]]);
                        lemma_fpp_mul_singleton(lam0, xd.pv()[0], self.irr(), p);
                        assert(t2.pv()[0] == mul_mod(lam0, xd.pv()[0], p));
                    }
                }
                Ok(Point::Affine { x: x_r, y: y_r })
            },
        }
    }

    /// Adds two points: identity cases, the inverse pair case (`x1 == x2`,
    /// `y1 != y2`), delegation to doubling when the points coincide, and
    /// otherwise the chord construction with `lambda = (y2-y1)/(x2-x1)`,
    /// witnessed by an inverse of `x2-x1`.
    pub fn add(&self, p1: &Point, p2: &Point) -> (r: Result<Point, FieldError>)
        requires
            self.wf(),
            self.point_wf(p1),
            self.point_wf(p2),
        ensures
            r is Ok ==> self.point_wf(&r->Ok_0),
            r is Ok ==> ec_add_rel(
                pt_view(p1),
                pt_view(p2),
                pt_view(&r->Ok_0),
                self.a.pv(),
                self.irr(),
                self.p(),
            ),
            pt_view(p1).0 ==> r is Ok && pt_view(&r->Ok_0) == pt_view(p2),
            (!pt_view(p1).0 && pt_view(p2).0) ==> r is Ok && pt_view(&r->Ok_0) == pt_view(p1),
            (!pt_view(p1).0 && !pt_view(p2).0 && pt_view(p1).1 == pt_view(p2).1 && pt_view(p1).2
                != pt_view(p2).2) ==> r is Ok && pt_view(&r->Ok_0).0,
            // In the degree-1 field the equal-point case succeeds whenever
            // doubling does, and the chord case whenever its denominator
            // x2 - x1 is a unit.
            (self.k() == 1 && !pt_view(p1).0 && !pt_view(p2).0 && pt_view(p1).1 == pt_view(p2).1
                && pt_view(p1).2 == pt_view(p2).2 && (pt_view(p1).2 == fpp_zero(self.k())
                || gcd_nat(
                sadd(pt_view(p1).2, pt_view(p1).2, self.p())[0],
                self.p(),
            ) == 1)) ==> r is Ok,
            (self.k() == 1 && !pt_view(p1).0 && !pt_view(p2).0 && pt_view(p1).1 != pt_view(p2).1
                && gcd_nat(
                ssub(pt_view(p2).1, pt_view(p1).1, self.p())[0],
                self.p(),
            ) == 1) ==> r is Ok,
            // In the degree-1 field addition is the exact total function of
            // the points' constant coordinates.
            self.k() == 1 ==> (match ec1_add_spec(
                pt1_view(p1),
                pt1_view(p2),
                self.a.pv()[0],
                self.p(),
            ) {
                Option::Some(res) => r is Ok && pt1_view(&r->Ok_0) == res,
                Option::None => r is Err,
            }),
            (!pt_view(p1).0 && !pt_view(p2).0 && pt_view(p1).1 == pt_view(p2).1 && pt_view(p1).2
                == pt_view(p2).2 && pt_view(p1).2 == fpp_zero(self.k())) ==> r is Ok && pt_view(
                &r->Ok_0,
            ).0,
            (!pt_view(p1).0 && !pt_view(p2).0 && pt_view(p1).1 == pt_view(p2).1 && pt_view(p1).2
                == pt_view(p2).2 && pt_view(p1).2 != fpp_zero(self.k()) && r is Ok) ==> ({
                // Adding a point to itself is the tangent construction of
                // doubling.
                let xv = pt_view(p1).1;
                let yv = pt_view(p1).2;
                let den = sadd(yv, yv, self.p());
                let num = sadd(
                    sadd(
                        sadd(
                            fpp_mul_spec(xv, xv, self.irr(), self.p()),
                            fpp_mul_spec(xv, xv, self.irr(), self.p()),
                            self.p(),
                        ),
                        fpp_mul_spec(xv, xv, self.irr(), self.p()),
                        self.p(),
                    ),
                    self.a.pv(),
                    self.p(),
                );
                exists|iv: Seq<nat>|
                    {
                        &&& #[trigger] fpp_mul_spec(den, iv, self.irr(), self.p()) == fpp_one(
                            self.k(),
                        )
                        &&& ({
                            let lam = fpp_mul_spec(num, iv, self.irr(), self.p());
                            let xr = ssub(
                                ssub(
                                    fpp_mul_spec(lam, lam, self.irr(), self.p()),
                                    xv,
                                    self.p(),
                                ),
                                xv,
                                self.p(),
                            );
                            let yr = ssub(
                                fpp_mul_spec(lam, ssub(xv, xr, self.p()), self.irr(), self.p()),
                                yv,
                                self.p(),
                            );
                            !pt_view(&r->Ok_0).0 && pt_view(&r->Ok_0).1 == xr && pt_view(
                                &r->Ok_0,
                            ).2 == yr
                        })
                    }
            }),
            (!pt_view(p1).0 && !pt_view(p2).0 && pt_view(p1).1 != pt_view(p2).1 && r is Ok) ==> ({
                let x1 = pt_view(p1).1;
                let y1 = pt_view(p1).2;
                let x2 = pt_view(p2).1;
                let y2 = pt_view(p2).2;
                let den = ssub(x2, x1, self.p());
                let num = ssub(y2, y1, self.p());
                exists|iv: Seq<nat>|
                    {
                        &&& #[trigger] fpp_mul_spec(den, iv, self.irr(), self.p()) == fpp_one(
                            self.k(),
                        )
                        &&& ({
                            let lam = fpp_mul_spec(num, iv, self.irr(), self.p());
                            let xr = ssub(
                                ssub(fpp_mul_spec(lam, lam, self.irr(), self.p()), x1, self.p()),
                                x2,
                                self.p(),
                            );
                            let yr = ssub(
                                fpp_mul_spec(lam, ssub(x1, xr, self.p()), self.irr(), self.p()),
                                y1,
                                self.p(),
                            );
                            !pt_view(&r->Ok_0).0 && pt_view(&r->Ok_0).1 == xr && pt_view(
                                &r->Ok_0,
                            ).2 == yr
                        })
                    }
            }),
            r is Err ==> r->Err_0 == FieldError::NonInvertible,
    {
        match (p1, p2) {
            (Point::Infinity, _) => {
                let c = self.clone_point(p2);
                Ok(c)
            },
            (_, Point::Infinity) => {
                let c = self.clone_point(p1);
                Ok(c)
            },
            (Point::Affine { x: x1, y: y1 }, Point::Affine { x: x2, y: y2 }) => {
                proof {
                    self.lemma_coords(x1, y1);
                    self.lemma_coords(x2, y2);
                    self.lemma_coords(x1, x2);
                    self.lemma_coords(y1, y2);
                    self.lemma_coords(x2, y1);
                    self.lemma_coords(x1, y2);
                    if self.k() == 1 {
                        // Length-one coefficient vectors are equal exactly
                        // when their constant coefficients are.
                        assert(x1.pv() =~= seq![x1.pv()[0]]);
                        assert(x2.pv() =~= seq![x2.pv()[0]]);
                        assert(y1.pv() =~= seq![y1.pv()[0]]);
                        assert(y2.pv() =~= seq![y2.pv()[0]]);
                        if x1.pv()[0] == x2.pv()[0] {
                            assert(x1.pv() =~= x2.pv());
                        }
                        if y1.pv()[0] == y2.pv()[0] {
                            assert(y1.pv() =~= y2.pv());
                        }
                    }
                }
                if Self::eq_elements(x1, x2) {
                    if Self::eq_elements(y1, y2) {
                        match self.double(p1) {
                            Ok(v) => {
                                return Ok(v);
                            },
                            Err(_) => {
                                return Err(FieldError::NonInvertible);
                            },
                        }
                    } else {
                        return Ok(Point::Infinity);
                    }
                }
                let num = y2.sub(y1);
                let den = x2.sub(x1);
                proof {
                    lemma_equiv_trans(&num.ctx, &y2.ctx, &self.ctx);
                    lemma_equiv_trans(&den.ctx, &x2.ctx, &self.ctx);
                    lemma_equiv_sym(&den.ctx, &self.ctx);
                    lemma_equiv_trans(&num.ctx, &self.ctx, &den.ctx);
                    assert(den.pv() =~= ssub(x2.pv(), x1.pv(), self.p()));
                    assert(num.k() == self.k() && num.p() == self.p());
                    if self.k() == 1 {
                        let p0 = self.p();
                        assert(num.pv()[0] == sub_mod(y2.pv()[0], y1.pv()[0], p0));
                        assert(den.pv()[0] == sub_mod(x2.pv()[0], x1.pv()[0], p0));
                    }
                }
                let lambda = match num.div(&den) {
                    Ok(v) => v,
                    Err(_) => {
                        return Err(FieldError::NonInvertible);
                    },
                };
                proof {
                    lemma_equiv_trans(&lambda.ctx, &num.ctx, &self.ctx);
                    lemma_equiv_sym(&lambda.ctx, &self.ctx);
                    lemma_equiv_trans(&lambda.ctx, &self.ctx, &lambda.ctx);
                }
                let lambda2 = lambda.mul(&lambda);
                proof {
                    lemma_equiv_trans(&lambda2.ctx, &lambda.ctx, &self.ctx);
                    lemma_equiv_sym(&lambda2.ctx, &self.ctx);
                    lemma_equiv_trans(&x1.ctx, &self.ctx, &lambda2.ctx);
                    lemma_equiv_sym(&x1.ctx, &lambda2.ctx);
                }
                let t1 = lambda2.sub(x1);
                proof {
                    lemma_equiv_trans(&t1.ctx, &lambda2.ctx, &self.ctx);
                    lemma_equiv_sym(&t1.ctx, &self.ctx);
                    lemma_equiv_trans(&x2.ctx, &self.ctx, &t1.ctx);
                    lemma_equiv_sym(&x2.ctx, &t1.ctx);
                }
                let x_r = t1.sub(x2);
                proof {
                    lemma_equiv_trans(&x_r.ctx, &t1.ctx, &self.ctx);
                    lemma_equiv_sym(&x_r.ctx, &self.ctx);
                    lemma_equiv_trans(&x1.ctx, &self.ctx, &x_r.ctx);
                }
                let xd = x1.sub(&x_r);
                proof {
                    lemma_equiv_trans(&xd.ctx, &x1.ctx, &self.ctx);
                    lemma_equiv_sym(&xd.ctx, &self.ctx);
                    lemma_equiv_trans(&lambda.ctx, &self.ctx, &xd.ctx);
                }
                let t2 = lambda.mul(&xd);
                proof {
                    lemma_equiv_trans(&t2.ctx, &lambda.ctx, &self.ctx);
                    lemma_equiv_sym(&t2.ctx, &self.ctx);
                    lemma_equiv_trans(&y1.ctx, &self.ctx, &t2.ctx);
                    lemma_equiv_sym(&y1.ctx, &t2.ctx);
                }
                let y_r = t2.sub(y1);
                proof {
                    lemma_equiv_trans(&y_r.ctx, &t2.ctx, &self.ctx);
                    let p = self.p();
                    assert(num.pv() =~= ssub(y2.pv(), y1.pv(), p));
                    assert(den.pv() =~= ssub(x2.pv(), x1.pv(), p));
                    assert(t1.pv() =~= ssub(lambda2.pv(), x1.pv(), p));
                    assert(x_r.pv() =~= ssub(t1.pv(), x2.pv(), p));
                    assert(xd.pv() =~= ssub(x1.pv(), x_r.pv(), p));
                    assert(y_r.pv() =~= ssub(t2.pv(), y1.pv(), p));
                    if self.k() == 1 {
                        let lam0 = lambda.pv()[0];
                        assert(lambda.pv() =~= seq![lam0]);
                        lemma_fpp_mul_singleton(lam0, lam0, self.irr(), p);
                        assert(lambda2.pv()[0] == mul_mod(lam0, lam0, p));
                        assert(xd.pv() =~= seq![xd.pv()[0]]);
                        lemma_fpp_mul_singleton(lam0, xd.pv()[0], self.irr(), p);
                        assert(t2.pv()[0] == mul_mod(lam0, xd.pv()[0], p));
                    }
                }
                Ok(Point::Affine { x: x_r, y: y_r })
            },
        }
    }

    /// Double-and-add scalar multiplication, scanning the scalar's bits from
    /// least to most significant; not constant-time.  The identity and a
    /// zero scalar give the identity.
    pub fn mul(&self, k: &BigUint, point: &Point) -> (r: Result<Point, FieldError>)
        requires
            self.wf(),
            self.point_wf(point),
        ensures
            r is Ok ==> self.point_wf(&r->Ok_0),
            r is Ok ==> ec_scalar_rel(
                big_nat(*k),
                pt_view(point),
                pt_view(&r->Ok_0),
                self.a.pv(),
                self.irr(),
                self.p(),
            ),
            big_nat(*k) == 0 ==> r is Ok && pt_view(&r->Ok_0).0,
            pt_view(point).0 ==> r is Ok && pt_view(&r->Ok_0).0,
            // In the degree-1 field scalar multiplication is the exact total
            // ladder of the point's constant coordinates: it succeeds with
            // the ladder's value exactly when every ladder step does.
            self.k() == 1 ==> (match ec1_mul_ladder(
                big_nat(*k),
                pt1_view(point),
                (true, 0, 0),
                self.a.pv()[0],
                self.p(),
            ) {
                Option::Some(res) => r is Ok && pt1_view(&r->Ok_0) == res,
                Option::None => r is Err,
            }),
            r is Err ==> r->Err_0 == FieldError::NonInvertible,
    {
        let ghost k0 = big_nat(*k);
        let ghost av = self.a.pv();
        let ghost irrv = self.irr();
        let ghost pp = self.p();
        let ghost a0g = self.a.pv()[0];
        let mut result = Point::Infinity;
        let mut temp = self.clone_point(point);
        let mut k_val = big_clone(k);
        let ghost mut temps: Seq<(bool, Seq<nat>, Seq<nat>)> = seq![pt_view(point)];
        let ghost mut accs: Seq<(bool, Seq<nat>, Seq<nat>)> = seq![pt_inf()];
        proof {
            vstd::arithmetic::power2::lemma2_to64();
            assert(k0 / pow2(0) == k0);
        }
        while !big_is_zero(&k_val)
            invariant
                self.wf(),
                k0 == big_nat(*k),
                av == self.a.pv(),
                irrv == self.irr(),
                pp == self.p(),
                self.point_wf(&result),
                self.point_wf(&temp),
                big_nat(*k) == 0 ==> big_nat(k_val) == 0,
                big_nat(*k) == 0 ==> pt_view(&result).0,
                pt_view(point).0 ==> (pt_view(&result).0 && pt_view(&temp).0),
                temps.len() >= 1,
                accs.len() == temps.len(),
                temps[0] == pt_view(point),
                accs[0] == pt_inf(),
                temps.last() == pt_view(&temp),
                accs.last() == pt_view(&result),
                big_nat(k_val) == k0 / pow2((temps.len() - 1) as nat),
                a0g == self.a.pv()[0],
                self.k() == 1 ==> ec1_mul_ladder(k0, pt1_view(point), (true, 0, 0), a0g, pp)
                    == ec1_mul_ladder(
                    big_nat(k_val),
                    pt1_view(&temp),
                    pt1_view(&result),
                    a0g,
                    pp,
                ),
                forall|i: int|
                    0 <= i < temps.len() - 1 ==> #[trigger] ec_chain_step(
                        k0,
                        temps,
                        accs,
                        i,
                        av,
                        irrv,
                        pp,
                    ),
            decreases big_nat(k_val),
        {
            let ghost kv = big_nat(k_val);
            let ghost tv = pt_view(&temp);
            let ghost accv = pt_view(&result);
            let ghost tv1 = pt1_view(&temp);
            let ghost accv1 = pt1_view(&result);
            let ghost s = (temps.len() - 1) as nat;
            proof {
                crate::gf2::lemma_bit_at_zero(kv);
                assert(kv == k0 / pow2(s));
            }
            if big_bit(&k_val, 0) {
                let next = match self.add(&result, &temp) {
                    Ok(v) => v,
                    Err(_) => {
                        proof {
                            if self.k() == 1 {
                                assert(ec1_add_spec(accv1, tv1, a0g, pp) is None);
                                assert(ec1_mul_ladder(kv, tv1, accv1, a0g, pp) is None);
                            }
                        }
                        return Err(FieldError::NonInvertible);
                    },
                };
                result = next;
            }
            let doubled = match self.double(&temp) {
                Ok(v) => v,
                Err(_) => {
                    proof {
                        if self.k() == 1 {
                            assert(ec1_double_spec(tv1, a0g, pp) is None);
                            assert(ec1_mul_ladder(kv, tv1, accv1, a0g, pp) is None);
                        }
                    }
                    return Err(FieldError::NonInvertible);
                },
            };
            temp = doubled;
            k_val = big_shr(&k_val, 1);
            proof {
                vstd::arithmetic::power2::lemma2_to64();
                vstd::arithmetic::power2::lemma_pow2_pos(s);
                vstd::arithmetic::power2::lemma_pow2_unfold(s + 1);
                lemma_div_denominator(k0 as int, pow2(s) as int, 2);
                assert(big_nat(k_val) == kv / 2);
                assert(kv / 2 == k0 / pow2(s + 1));
                let old_temps = temps;
                let old_accs = accs;
                temps = temps.push(pt_view(&temp));
                accs = accs.push(pt_view(&result));
                assert(ec_double_rel(tv, pt_view(&temp), av, irrv, pp));
                if bit_at(k0, s) {
                    assert(ec_add_rel(accv, tv, pt_view(&result), av, irrv, pp));
                }
                assert forall|i: int| 0 <= i < temps.len() - 1 implies #[trigger] ec_chain_step(
                    k0,
                    temps,
                    accs,
                    i,
                    av,
                    irrv,
                    pp,
                ) by {
                    if i < old_temps.len() - 1 {
                        assert(ec_chain_step(k0, old_temps, old_accs, i, av, irrv, pp));
                        assert(temps[i] == old_temps[i] && temps[i + 1] == old_temps[i + 1]);
                        assert(accs[i] == old_accs[i] && accs[i + 1] == old_accs[i + 1]);
                    }
                }
                if self.k() == 1 {
                    // One exec iteration is one unfolding of the total ladder.
                    assert(ec1_double_spec(tv1, a0g, pp) == Option::Some(pt1_view(&temp)));
                    if kv % 2 == 1 {
                        assert(ec1_add_spec(accv1, tv1, a0g, pp) == Option::Some(
                            pt1_view(&result),
                        ));
                    } else {
                        assert(pt1_view(&result) == accv1);
                    }
                    assert(ec1_mul_ladder(kv, tv1, accv1, a0g, pp) == ec1_mul_ladder(
                        kv / 2,
                        pt1_view(&temp),
                        pt1_view(&result),
                        a0g,
                        pp,
                    ));
                }
            }
        }
        proof {
            assert(ec_chain_ok(k0, pt_view(point), temps, accs, pt_view(&result), av, irrv, pp));
            if self.k() == 1 {
                assert(ec1_mul_ladder(0, pt1_view(&temp), pt1_view(&result), a0g, pp)
                    == Option::Some(pt1_view(&result)));
            }
        }
        Ok(result)
    }

    /// Constant-time-style scalar multiplication: the scalar is reduced
    /// modulo `order` and the ladder runs for exactly the bit length of
    /// `order`, adding into a discarded accumulator on zero bits.
    pub fn mul_secure(&self, k: &BigUint, point: &Point, order: &BigUint) -> (r: Result<
        Point,
        FieldError,
    >)
        requires
            self.wf(),
            self.point_wf(point),
            big_nat(*order) > 0,
        ensures
            r is Ok ==> self.point_wf(&r->Ok_0),
            r is Ok ==> ec_scalar_rel(
                big_nat(*k) % big_nat(*order),
                pt_view(point),
                pt_view(&r->Ok_0),
                self.a.pv(),
                self.irr(),
                self.p(),
            ),
            pt_view(point).0 ==> r is Ok && pt_view(&r->Ok_0).0,
            (r is Ok && big_nat(*k) % big_nat(*order) == 0) ==> pt_view(&r->Ok_0).0,
            r is Err ==> r->Err_0 == FieldError::NonInvertible,
    {
        let ghost av = self.a.pv();
        let ghost irrv = self.irr();
        let ghost pp = self.p();
        let k_red = big_rem(k, order);
        let ghost kr = big_nat(k_red);
        let nbits = big_bits(order);
        let mut result = Point::Infinity;
        let mut dummy = Point::Infinity;
        let mut temp = self.clone_point(point);
        let mut shift: u64 = 0;
        let ghost mut temps: Seq<(bool, Seq<nat>, Seq<nat>)> = seq![pt_view(point)];
        let ghost mut accs: Seq<(bool, Seq<nat>, Seq<nat>)> = seq![pt_inf()];
        while shift < nbits
            invariant
                self.wf(),
                av == self.a.pv(),
                irrv == self.irr(),
                pp == self.p(),
                big_nat(k_red) == kr,
                shift <= nbits,
                self.point_wf(&result),
                self.point_wf(&dummy),
                self.point_wf(&temp),
                pt_view(point).0 ==> (pt_view(&result).0 && pt_view(&temp).0 && pt_view(
                    &dummy,
                ).0),
                temps.len() == shift as nat + 1,
                accs.len() == temps.len(),
                temps[0] == pt_view(point),
                accs[0] == pt_inf(),
                temps.last() == pt_view(&temp),
                accs.last() == pt_view(&result),
                forall|i: int|
                    0 <= i < temps.len() - 1 ==> #[trigger] ec_chain_step(
                        kr,
                        temps,
                        accs,
                        i,
                        av,
                        irrv,
                        pp,
                    ),
            decreases nbits - shift,
        {
            let ghost tv = pt_view(&temp);
            let ghost accv = pt_view(&result);
            let bit = big_bit(&k_red, shift);
            if bit {
                let next = match self.add(&result, &temp) {
                    Ok(v) => v,
                    Err(_) => {
                        return Err(FieldError::NonInvertible);
                    },
                };
                result = next;
            } else {
                let next = match self.add(&dummy, &temp) {
                    Ok(v) => v,
                    Err(_) => {
                        return Err(FieldError::NonInvertible);
                    },
                };
                dummy = next;
            }
            let doubled = match self.double(&temp) {
                Ok(v) => v,
                Err(_) => {
                    return Err(FieldError::NonInvertible);
                },
            };
            temp = doubled;
            shift = shift + 1;
            proof {
                let old_temps = temps;
                let old_accs = accs;
                temps = temps.push(pt_view(&temp));
                accs = accs.push(pt_view(&result));
                assert(ec_double_rel(tv, pt_view(&temp), av, irrv, pp));
                if bit {
                    assert(ec_add_rel(accv, tv, pt_view(&result), av, irrv, pp));
                }
                assert forall|i: int| 0 <= i < temps.len() - 1 implies #[trigger] ec_chain_step(
                    kr,
                    temps,
                    accs,
                    i,
                    av,
                    irrv,
                    pp,
                ) by {
                    if i < old_temps.len() - 1 {
                        assert(ec_chain_step(kr, old_temps, old_accs, i, av, irrv, pp));
                        assert(temps[i] == old_temps[i] && temps[i + 1] == old_temps[i + 1]);
                        assert(accs[i] == old_accs[i] && accs[i + 1] == old_accs[i + 1]);
                    }
                }
            }
        }
        proof {
            // All bits of the reduced scalar are exhausted after the order's
            // bit length.
            lemma_mod_division_less_than_divisor(big_nat(*k) as int, big_nat(*order) as int);
            crate::gf2::lemma_bitlen_mono(kr, big_nat(*order));
            crate::gf2::lemma_bitlen_bounds(kr);
            if bitlen(kr) < nbits as nat {
                vstd::arithmetic::power2::lemma_pow2_strictly_increases(bitlen(kr), nbits as nat);
            }
            vstd::arithmetic::div_mod::lemma_basic_div(kr as int, pow2(nbits as nat) as int);
            assert(kr / pow2(nbits as nat) == 0);
            assert(ec_chain_ok(kr, pt_view(point), temps, accs, pt_view(&result), av, irrv, pp));
            if kr == 0 {
                // A zero reduced scalar reaches only the identity.
                assert(ec_scalar_rel(0, pt_view(point), pt_view(&result), av, irrv, pp));
                lemma_ec_mul_zero(pt_view(point), pt_view(&result), av, irrv, pp);
            }
        }
        Ok(result)
    }

    /// Builds an affine point with constant-polynomial coordinates, as used
    /// for the curve over F_p itself (`k == 1`).
    pub fn point(&self, x: BigUint, y: BigUint) -> (r: Point)
        requires
            self.wf(),
        ensures
            self.point_wf(&r),
            !pt_view(&r).0,
            pt_view(&r).1.len() == self.k(),
            pt_view(&r).2.len() == self.k(),
            pt_view(&r).1[0] == big_nat(x) % self.p(),
            pt_view(&r).2[0] == big_nat(y) % self.p(),
            forall|i: int| 1 <= i < self.k() ==> pt_view(&r).1[i] == 0 && pt_view(&r).2[i] == 0,
    {
        let xe = FpPolynomialElement::from_fp(&self.ctx, FpElement::new(&self.ctx, x));
        let ye = FpPolynomialElement::from_fp(&self.ctx, FpElement::new(&self.ctx, y));
        proof {
            lemma_equiv_sym(&xe.ctx, &self.ctx);
            lemma_equiv_sym(&ye.ctx, &self.ctx);
            lemma_equiv_trans(&self.ctx, &xe.ctx, &self.ctx);
        }
        Point::Affine { x: xe, y: ye }
    }
}

/// The Schnorr response `s = (k - x*e) mod order`, with the negative
/// intermediate folded back by adding the order before the final reduction.
pub open spec fn schnorr_s_spec(k: nat, x: nat, e: nat, order: nat) -> nat
    recommends
        order > 0,
{
    ((k as int - ((x * e) % order)) % (order as int)) as nat
}

/// Computes the Schnorr response `s = k - x*e (mod order)` for nonce `k`,
/// private key `x` and challenge `e`.
pub fn schnorr_s(k: &BigUint, x: &BigUint, e: &BigUint, order: &BigUint) -> (r: BigUint)
    requires
        big_nat(*order) > 0,
    ensures
        big_nat(r) == schnorr_s_spec(big_nat(*k), big_nat(*x), big_nat(*e), big_nat(*order)),
{
    let ghost kv = big_nat(*k) as int;
    let ghost ov = big_nat(*order) as int;
    let xe = big_mul(x, e);
    let ae = big_rem(&xe, order);
    let ghost av = big_nat(ae) as int;
    let kr = big_rem(k, order);
    let shifted = big_add(&kr, order);
    let diff = big_sub(&shifted, &ae);
    let r = big_rem(&diff, order);
    proof {
        lemma_mod_bound(big_nat(*x) as int * big_nat(*e) as int, ov);
        lemma_mod_bound(kv, ov);
        // (k % o + o - ae) % o == (k - ae) % o.
        let d = (kv % ov) + ov - av;
        lemma_fundamental_div_mod(kv, ov);
        let q = kv / ov;
        assert(d == (kv - av) + ov * (1 - q)) by (nonlinear_arith)
            requires
                kv == ov * q + kv % ov,
                d == (kv % ov) + ov - av,
        ;
        assert(ov * (1 - q) == (1 - q) * ov) by (nonlinear_arith);
        vstd::arithmetic::div_mod::lemma_mod_multiples_vanish(1 - q, kv - av, ov);
        assert(d % ov == (kv - av) % ov);
    }
    r
}

impl EllipticCurve {
    /// Decides whether a commitment point carries the challenge `e` for
    /// `message`: true exactly when the point is affine and the challenge
    /// digest of its serialized constant coordinates and the message equals
    /// `e`.  The identity carries no challenge.
    pub fn schnorr_commitment_matches(
        &self,
        commitment: &Point,
        message: &str,
        e: &BigUint,
    ) -> (r: bool)
        requires
            self.wf(),
            self.point_wf(commitment),
            self.k() == 1,
        ensures
            r <==> (!pt_view(commitment).0 && challenge_of(
                canon_be(pt_view(commitment).1[0]),
                canon_be(pt_view(commitment).2[0]),
                message@,
            ) == big_nat(*e)),
    {
        match commitment {
            Point::Affine { x, y } => {
                let e_v = compute_challenge(&x.coeffs[0].val, &y.coeffs[0].val, message);
                big_eq(&e_v, e)
            },
            Point::Infinity => false,
        }
    }

    /// Verifies a Schnorr signature `(s, e)` on `message` against the
    /// generator `g` and the public key: recomputes the commitment
    /// `R = g*s + Y*e` and accepts exactly when every group operation
    /// succeeds, the commitment is affine, and the challenge digest of its
    /// serialized coordinates and the message equals `e`.
    pub fn schnorr_ecfp_verify(
        &self,
        g: &Point,
        pub_key: &Point,
        message: &str,
        s: BigUint,
        e: BigUint,
    ) -> (r: bool)
        requires
            self.wf(),
            self.point_wf(g),
            self.point_wf(pub_key),
            self.k() == 1,
        ensures
            // The decision, if and only if: the deterministic degree-1
            // recomputation of s*g + e*Y accepts.
            r == ec1_verify_spec(
                big_nat(s),
                big_nat(e),
                pt1_view(g),
                pt1_view(pub_key),
                message@,
                self.a.pv()[0],
                self.p(),
            ),
            r ==> exists|
                sp: (bool, Seq<nat>, Seq<nat>),
                ep: (bool, Seq<nat>, Seq<nat>),
                rv: (bool, Seq<nat>, Seq<nat>),
            |
                {
                    &&& ec_scalar_rel(big_nat(s), pt_view(g), sp, self.a.pv(), self.irr(), self.p())
                    &&& ec_scalar_rel(
                        big_nat(e),
                        pt_view(pub_key),
                        ep,
                        self.a.pv(),
                        self.irr(),
                        self.p(),
                    )
                    &&& #[trigger] ec_add_rel(sp, ep, rv, self.a.pv(), self.irr(), self.p())
                    &&& !rv.0
                    &&& challenge_of(canon_be(rv.1[0]), canon_be(rv.2[0]), message@) == big_nat(e)
                },
    {
        let ghost a0g = self.a.pv()[0];
        let ghost pp = self.p();
        let g_s = match self.mul(&s, g) {
            Ok(v) => v,
            Err(_) => {
                proof {
                    assert(ec1_mul_ladder(big_nat(s), pt1_view(g), (true, 0, 0), a0g, pp)
                        is None);
                }
                return false;
            },
        };
        let y_e = match self.mul(&e, pub_key) {
            Ok(v) => v,
            Err(_) => {
                proof {
                    assert(ec1_mul_ladder(big_nat(e), pt1_view(pub_key), (true, 0, 0), a0g, pp)
                        is None);
                }
                return false;
            },
        };
        let r_v = match self.add(&g_s, &y_e) {
            Ok(v) => v,
            Err(_) => {
                proof {
                    assert(ec1_add_spec(pt1_view(&g_s), pt1_view(&y_e), a0g, pp) is None);
                }
                return false;
            },
        };
        let ok = self.schnorr_commitment_matches(&r_v, message, &e);
        proof {
            assert(ec1_add_spec(pt1_view(&g_s), pt1_view(&y_e), a0g, pp) == Option::Some(
                pt1_view(&r_v),
            ));
            match &r_v {
                Point::Infinity => {
                    assert(!ok);
                },
                Point::Affine { x, y } => {
                    assert(pt1_view(&r_v) == (false, x.pv()[0], y.pv()[0]));
                },
            }
            if ok {
                assert(ec_scalar_rel(
                    big_nat(s),
                    pt_view(g),
                    pt_view(&g_s),
                    self.a.pv(),
                    self.irr(),
                    self.p(),
                ) && ec_scalar_rel(
                    big_nat(e),
                    pt_view(pub_key),
                    pt_view(&y_e),
                    self.a.pv(),
                    self.irr(),
                    self.p(),
                ) && ec_add_rel(
                    pt_view(&g_s),
                    pt_view(&y_e),
                    pt_view(&r_v),
                    self.a.pv(),
                    self.irr(),
                    self.p(),
                ));
            }
        }
        ok
    }

    /// Signs a message: computes the commitment `R = g*nonce`, derives the
    /// challenge `e` from `R`'s serialized coordinates and the message, and
    /// returns `(s, e)` with `s = nonce - private_key*e (mod order)`.  The
    /// nonce is the caller's randomness; the signature is produced exactly
    /// when the commitment ladder succeeds with an affine point, and the
    /// challenge is pinned to that point's serialized coordinates.
    pub fn schnorr_ecfp_sign(
        &self,
        g: &Point,
        private_key: &BigUint,
        nonce: &BigUint,
        order: &BigUint,
        message: &str,
    ) -> (r: Option<(BigUint, BigUint)>)
        requires
            self.wf(),
            self.point_wf(g),
            self.k() == 1,
            big_nat(*order) > 0,
        ensures
            // Production, if and only if: the deterministic degree-1
            // commitment ladder yields an affine point, whose serialized
            // coordinates pin the returned challenge.
            (match ec1_mul_ladder(
                big_nat(*nonce),
                pt1_view(g),
                (true, 0, 0),
                self.a.pv()[0],
                self.p(),
            ) {
                Option::Some(cv) => (r is Some <==> !cv.0) && (r is Some ==> big_nat((r->0).1)
                    == challenge_of(canon_be(cv.1), canon_be(cv.2), message@)),
                Option::None => r is None,
            }),
            r is Some ==> big_nat((r->0).0) == schnorr_s_spec(
                big_nat(*nonce),
                big_nat(*private_key),
                big_nat((r->0).1),
                big_nat(*order),
            ),
            r is Some ==> exists|cv: (bool, Seq<nat>, Seq<nat>)|
                {
                    &&& #[trigger] ec_scalar_rel(
                        big_nat(*nonce),
                        pt_view(g),
                        cv,
                        self.a.pv(),
                        self.irr(),
                        self.p(),
                    )
                    &&& !cv.0
                    &&& big_nat((r->0).1) == challenge_of(
                        canon_be(cv.1[0]),
                        canon_be(cv.2[0]),
                        message@,
                    )
                },
    {
        let ghost a0g = self.a.pv()[0];
        let ghost pp = self.p();
        let commitment = match self.mul(nonce, g) {
            Ok(v) => v,
            Err(_) => {
                proof {
                    assert(ec1_mul_ladder(big_nat(*nonce), pt1_view(g), (true, 0, 0), a0g, pp)
                        is None);
                }
                return None;
            },
        };
        proof {
            assert(ec1_mul_ladder(big_nat(*nonce), pt1_view(g), (true, 0, 0), a0g, pp)
                == Option::Some(pt1_view(&commitment)));
        }
        match commitment {
            Point::Affine { x, y } => {
                let e = compute_challenge(&x.coeffs[0].val, &y.coeffs[0].val, message);
                let s = schnorr_s(nonce, private_key, &e, order);
                Some((s, e))
            },
            Point::Infinity => None,
        }
    }
}

} // verus!
