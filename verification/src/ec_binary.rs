//! The elliptic curve `y^2 + xy = x^3 + a*x^2 + b` over GF(2^m): the group
//! law in affine coordinates, with the exact characteristic-2 formulas in
//! every contract, and double-and-add scalar multiplication in a plain and a
//! constant-time-style variant.

use vstd::prelude::*;
use vstd::arithmetic::power2::pow2;
use vstd::arithmetic::div_mod::{lemma_small_mod, lemma_mod_division_less_than_divisor, lemma_div_denominator};
use num::BigUint;
use crate::bigint::{big_nat, big_clone, big_eq, big_is_zero, big_rem, big_bits, big_bit, big_shr};
use crate::context::{FieldContext, lemma_equiv_sym, lemma_equiv_trans};
use crate::f2_poly::{F2PolynomialElement, f2_mul_spec, f2_inv_spec};
use crate::gf2::{nx, bitlen};
use crate::FieldError;

verus! {

/// A point of the binary curve: the identity, or an affine pair.
#[derive(Debug)]
pub enum BinaryPoint {
    Infinity,
    Affine { x: F2PolynomialElement, y: F2PolynomialElement },
}

/// The value of a point: an infinity flag and the two coordinate values.
pub open spec fn bp_view(p: &BinaryPoint) -> (bool, nat, nat) {
    match p {
        BinaryPoint::Infinity => (true, 0, 0),
        BinaryPoint::Affine { x, y } => (false, x.v(), y.v()),
    }
}

/// The slope of the tangent at an affine point with nonzero `x`.
pub open spec fn bp_lambda_double(xv: nat, yv: nat, m: nat) -> nat {
    nx(xv, f2_mul_spec(yv, f2_inv_spec(xv, m), m))
}

/// Doubling in the value domain.
pub open spec fn bp_double_spec(p: (bool, nat, nat), av: nat, m: nat) -> (bool, nat, nat) {
    if p.0 {
        (true, 0, 0)
    } else if p.1 == 0 {
        (true, 0, 0)
    } else {
        let lam = bp_lambda_double(p.1, p.2, m);
        let xr = nx(nx(f2_mul_spec(lam, lam, m), lam), av);
        let yr = nx(nx(f2_mul_spec(p.1, p.1, m), f2_mul_spec(lam, xr, m)), xr);
        (false, xr, yr)
    }
}

/// The chord slope between two affine points with distinct `x`.
pub open spec fn bp_lambda_add(x1: nat, y1: nat, x2: nat, y2: nat, m: nat) -> nat {
    f2_mul_spec(nx(y1, y2), f2_inv_spec(nx(x1, x2), m), m)
}

/// Addition in the value domain.
pub open spec fn bp_add_spec(p1: (bool, nat, nat), p2: (bool, nat, nat), av: nat, m: nat) -> (
    bool,
    nat,
    nat,
) {
    if p1.0 {
        p2
    } else if p2.0 {
        p1
    } else if p1.1 == p2.1 {
        if p1.2 == p2.2 {
            bp_double_spec(p1, av, m)
        } else {
            (true, 0, 0)
        }
    } else {
        let lam = bp_lambda_add(p1.1, p1.2, p2.1, p2.2, m);
        let xr = nx(nx(nx(nx(f2_mul_spec(lam, lam, m), lam), p1.1), p2.1), av);
        let yr = nx(nx(f2_mul_spec(lam, nx(p1.1, xr), m), xr), p1.2);
        (false, xr, yr)
    }
}

/// Double-and-add in the value domain, consuming the scalar from its lowest
/// bit up; both scalar-multiplication entry points return exactly this.
pub open spec fn bp_mul_ladder(
    k: nat,
    temp: (bool, nat, nat),
    acc: (bool, nat, nat),
    av: nat,
    m: nat,
) -> (bool, nat, nat)
    decreases k,
{
    if k == 0 {
        acc
    } else {
        bp_mul_ladder(
            k / 2,
            bp_double_spec(temp, av, m),
            if k % 2 == 1 {
                bp_add_spec(acc, temp, av, m)
            } else {
                acc
            },
            av,
            m,
        )
    }
}

/// Whether doubling a point is defined: the identity and 2-torsion cases
/// always are, and the tangent case exactly when `x` has an inverse.
pub open spec fn bp_double_ok(p: (bool, nat, nat), m: nat) -> bool {
    ||| p.0
    ||| p.1 == 0
    ||| exists|i: nat| bitlen(i) < bitlen(m) && #[trigger] f2_mul_spec(p.1, i, m) == 1
}

/// Whether adding two points is defined: identity and inverse-pair cases
/// always are, equal points exactly when doubling is, and the chord exactly
/// when `x1 + x2` has an inverse.
pub open spec fn bp_add_ok(p1: (bool, nat, nat), p2: (bool, nat, nat), m: nat) -> bool {
    if p1.0 || p2.0 {
        true
    } else if p1.1 == p2.1 {
        if p1.2 == p2.2 {
            bp_double_ok(p1, m)
        } else {
            true
        }
    } else {
        exists|i: nat| bitlen(i) < bitlen(m) && #[trigger] f2_mul_spec(nx(p1.1, p2.1), i, m) == 1
    }
}

/// Whether every step of the double-and-add pass is defined.
pub open spec fn bp_ladder_ok(
    k: nat,
    temp: (bool, nat, nat),
    acc: (bool, nat, nat),
    av: nat,
    m: nat,
) -> bool
    decreases k,
{
    if k == 0 {
        true
    } else if k % 2 == 1 && !bp_add_ok(acc, temp, m) {
        false
    } else {
        let acc2 = if k % 2 == 1 {
            bp_add_spec(acc, temp, av, m)
        } else {
            acc
        };
        bp_double_ok(temp, m) && bp_ladder_ok(k / 2, bp_double_spec(temp, av, m), acc2, av, m)
    }
}

/// Whether every pass of the fixed-width masked ladder is defined: on a set
/// bit the live accumulator takes the addition, on a clear bit the discard
/// accumulator does, and the running point doubles either way.
pub open spec fn bp_secure_ladder_ok(
    k: nat,
    nbits: nat,
    temp: (bool, nat, nat),
    acc: (bool, nat, nat),
    dummy: (bool, nat, nat),
    av: nat,
    m: nat,
) -> bool
    decreases nbits,
{
    if nbits == 0 {
        true
    } else if k % 2 == 1 {
        bp_add_ok(acc, temp, m) && bp_double_ok(temp, m) && bp_secure_ladder_ok(
            k / 2,
            (nbits - 1) as nat,
            bp_double_spec(temp, av, m),
            bp_add_spec(acc, temp, av, m),
            dummy,
            av,
            m,
        )
    } else {
        bp_add_ok(dummy, temp, m) && bp_double_ok(temp, m) && bp_secure_ladder_ok(
            k / 2,
            (nbits - 1) as nat,
            bp_double_spec(temp, av, m),
            acc,
            bp_add_spec(dummy, temp, av, m),
            av,
            m,
        )
    }
}

/// A set-bit pass whose live addition is undefined fails the masked ladder.
proof fn lemma_bp_secure_err_live(
    k: nat,
    nb: nat,
    t: (bool, nat, nat),
    a: (bool, nat, nat),
    d: (bool, nat, nat),
    av: nat,
    m: nat,
)
    requires
        nb != 0,
        k % 2 == 1,
        !bp_add_ok(a, t, m),
    ensures
        !bp_secure_ladder_ok(k, nb, t, a, d, av, m),
{
    reveal_with_fuel(bp_secure_ladder_ok, 1);
}

/// A clear-bit pass whose discard addition is undefined fails the masked
/// ladder.
proof fn lemma_bp_secure_err_dummy(
    k: nat,
    nb: nat,
    t: (bool, nat, nat),
    a: (bool, nat, nat),
    d: (bool, nat, nat),
    av: nat,
    m: nat,
)
    requires
        nb != 0,
        k % 2 == 0,
        !bp_add_ok(d, t, m),
    ensures
        !bp_secure_ladder_ok(k, nb, t, a, d, av, m),
{
    reveal_with_fuel(bp_secure_ladder_ok, 1);
}

/// A pass whose doubling is undefined fails the masked ladder, whatever the
/// bit.
proof fn lemma_bp_secure_err_double(
    k: nat,
    nb: nat,
    t: (bool, nat, nat),
    a: (bool, nat, nat),
    d: (bool, nat, nat),
    av: nat,
    m: nat,
)
    requires
        nb != 0,
        !bp_double_ok(t, m),
    ensures
        !bp_secure_ladder_ok(k, nb, t, a, d, av, m),
{
    reveal_with_fuel(bp_secure_ladder_ok, 1);
}

/// A defined pass unfolds the masked ladder by one step.
proof fn lemma_bp_secure_step(
    k: nat,
    nb: nat,
    t: (bool, nat, nat),
    a: (bool, nat, nat),
    d: (bool, nat, nat),
    av: nat,
    m: nat,
)
    requires
        nb != 0,
        bp_double_ok(t, m),
        k % 2 == 1 ==> bp_add_ok(a, t, m),
        k % 2 == 0 ==> bp_add_ok(d, t, m),
    ensures
        bp_secure_ladder_ok(k, nb, t, a, d, av, m) == bp_secure_ladder_ok(
            k / 2,
            (nb - 1) as nat,
            bp_double_spec(t, av, m),
            if k % 2 == 1 {
                bp_add_spec(a, t, av, m)
            } else {
                a
            },
            if k % 2 == 1 {
                d
            } else {
                bp_add_spec(d, t, av, m)
            },
            av,
            m,
        ),
{
    reveal_with_fuel(bp_secure_ladder_ok, 1);
}

/// Law: the identity is neutral on the right of the value-domain addition.
pub proof fn lemma_bp_add_infinity(p: (bool, nat, nat), av: nat, m: nat)
    requires
        p.0 ==> p == (true, 0nat, 0nat),
    ensures
        bp_add_spec(p, (true, 0, 0), av, m) == p,
        bp_add_spec((true, 0, 0), p, av, m) == p,
{
}

/// Law: adding a point to itself is doubling, in the value domain.
pub proof fn lemma_bp_add_self(p: (bool, nat, nat), av: nat, m: nat)
    requires
        p.0 ==> p == (true, 0nat, 0nat),
    ensures
        bp_add_spec(p, p, av, m) == bp_double_spec(p, av, m),
{
}

/// Law: multiplying by one returns the point itself, in the value domain.
pub proof fn lemma_bp_mul_one(p: (bool, nat, nat), av: nat, m: nat)
    requires
        p.0 ==> p == (true, 0nat, 0nat),
    ensures
        bp_mul_ladder(1, p, (true, 0, 0), av, m) == p,
{
    assert(bp_mul_ladder(1, p, (true, 0, 0), av, m) == bp_mul_ladder(
        0,
        bp_double_spec(p, av, m),
        bp_add_spec((true, 0, 0), p, av, m),
        av,
        m,
    ));
}

/// Law: multiplying by two is doubling, in the value domain.
pub proof fn lemma_bp_mul_two(p: (bool, nat, nat), av: nat, m: nat)
    ensures
        bp_mul_ladder(2, p, (true, 0, 0), av, m) == bp_double_spec(p, av, m),
{
    let d = bp_double_spec(p, av, m);
    assert(bp_mul_ladder(2, p, (true, 0, 0), av, m) == bp_mul_ladder(
        1,
        d,
        (true, 0, 0),
        av,
        m,
    ));
    assert(bp_mul_ladder(1, d, (true, 0, 0), av, m) == bp_mul_ladder(
        0,
        bp_double_spec(d, av, m),
        bp_add_spec((true, 0, 0), d, av, m),
        av,
        m,
    ));
}

/// Law: the constant-time ladder agrees with plain scalar multiplication
/// whenever the scalar is already reduced below the subgroup order.
pub proof fn lemma_bp_mul_secure_consistent(
    k: nat,
    order: nat,
    p: (bool, nat, nat),
    av: nat,
    m: nat,
)
    requires
        0 < order,
        k < order,
    ensures
        bp_mul_ladder(k % order, p, (true, 0, 0), av, m) == bp_mul_ladder(
            k,
            p,
            (true, 0, 0),
            av,
            m,
        ),
{
    lemma_small_mod(k, order);
}

/// The curve `y^2 + xy = x^3 + a*x^2 + b` over GF(2^m); non-singular exactly
/// when `b` is nonzero.
#[derive(Debug)]
pub struct BinaryEllipticCurve {
    pub a: F2PolynomialElement,
    pub b: F2PolynomialElement,
    pub ctx: FieldContext,
}

impl BinaryEllipticCurve {
    pub open spec fn wf(&self) -> bool {
        &&& self.ctx.wf()
        &&& self.ctx is Binary
        &&& self.a.wf()
        &&& self.b.wf()
        &&& self.a.ctx.equiv(&self.ctx)
        &&& self.b.ctx.equiv(&self.ctx)
        &&& self.b.v() != 0
    }

    /// The irreducible modulus polynomial.
    pub open spec fn m(&self) -> nat {
        self.ctx.bin_irr()
    }

    /// A point lies in this curve's field.
    pub open spec fn point_wf(&self, p: &BinaryPoint) -> bool {
        match p {
            BinaryPoint::Infinity => true,
            BinaryPoint::Affine { x, y } => {
                &&& x.wf()
                &&& y.wf()
                &&& x.ctx.equiv(&self.ctx)
                &&& y.ctx.equiv(&self.ctx)
            },
        }
    }

    /// Builds the curve; the context must be binary, the coefficients must
    /// come from it, and `b` must be nonzero, else the curve is singular.
    pub fn new(a: F2PolynomialElement, b: F2PolynomialElement, ctx: &FieldContext) -> (r: Result<
        BinaryEllipticCurve,
        FieldError,
    >)
        requires
            ctx.wf(),
            ctx is Binary,
            a.wf(),
            b.wf(),
        ensures
            r is Ok <==> (a.ctx.equiv(ctx) && b.ctx.equiv(ctx) && b.v() != 0),
            r is Ok ==> {
                &&& r->Ok_0.wf()
                &&& r->Ok_0.ctx.equiv(ctx)
                &&& r->Ok_0.a.v() == a.v()
                &&& r->Ok_0.b.v() == b.v()
            },
            r is Err ==> (r->Err_0 == FieldError::ContextMismatch || r->Err_0
                == FieldError::SingularCurve),
    {
        if !a.ctx.same_instance(ctx) || !b.ctx.same_instance(ctx) {
            return Err(FieldError::ContextMismatch);
        }
        if b.is_zero() {
            return Err(FieldError::SingularCurve);
        }
        Ok(BinaryEllipticCurve { a, b, ctx: ctx.clone() })
    }

    /// Whether the point satisfies `y^2 + xy = x^3 + a*x^2 + b`; the
    /// identity always does.
    pub fn contains_point(&self, point: &BinaryPoint) -> (r: bool)
        requires
            self.wf(),
            self.point_wf(point),
        ensures
            r <==> (match point {
                BinaryPoint::Infinity => true,
                BinaryPoint::Affine { x, y } => nx(
                    f2_mul_spec(y.v(), y.v(), self.m()),
                    f2_mul_spec(x.v(), y.v(), self.m()),
                ) == nx(
                    nx(
                        f2_mul_spec(f2_mul_spec(x.v(), x.v(), self.m()), x.v(), self.m()),
                        f2_mul_spec(self.a.v(), f2_mul_spec(x.v(), x.v(), self.m()), self.m()),
                    ),
                    self.b.v(),
                ),
            }),
    {
        match point {
            BinaryPoint::Infinity => true,
            BinaryPoint::Affine { x, y } => {
                proof {
                    self.lemma_coords(x, y);
                }
                let y2 = y.mul(y);
                let xy = x.mul(y);
                let x2 = x.mul(x);
                let x3 = x2.mul(x);
                proof {
                    lemma_equiv_trans(&x2.ctx, &x.ctx, &self.ctx);
                    lemma_equiv_sym(&x2.ctx, &self.ctx);
                    lemma_equiv_trans(&self.a.ctx, &self.ctx, &x2.ctx);
                    lemma_equiv_trans(&x3.ctx, &x2.ctx, &self.ctx);
                    lemma_equiv_trans(&y2.ctx, &y.ctx, &self.ctx);
                    lemma_equiv_trans(&xy.ctx, &x.ctx, &self.ctx);
                    lemma_equiv_sym(&xy.ctx, &self.ctx);
                    lemma_equiv_trans(&y2.ctx, &self.ctx, &xy.ctx);
                }
                let ax2 = self.a.mul(&x2);
                proof {
                    lemma_equiv_trans(&ax2.ctx, &self.a.ctx, &self.ctx);
                    lemma_equiv_sym(&ax2.ctx, &self.ctx);
                    lemma_equiv_trans(&x3.ctx, &self.ctx, &ax2.ctx);
                }
                let lhs = y2.add(&xy);
                let rhs1 = x3.add(&ax2);
                proof {
                    lemma_equiv_trans(&rhs1.ctx, &x3.ctx, &self.ctx);
                    lemma_equiv_sym(&rhs1.ctx, &self.ctx);
                    lemma_equiv_trans(&self.b.ctx, &self.ctx, &rhs1.ctx);
                    lemma_equiv_sym(&self.b.ctx, &rhs1.ctx);
                }
                let rhs = rhs1.add(&self.b);
                big_eq(&lhs.coeffs, &rhs.coeffs)
            },
        }
    }

    /// Brings a point's coordinates into each other's field.
    proof fn lemma_coords(&self, x: &F2PolynomialElement, y: &F2PolynomialElement)
        requires
            self.wf(),
            x.wf(),
            y.wf(),
            x.ctx.equiv(&self.ctx),
            y.ctx.equiv(&self.ctx),
        ensures
            x.same_field(y),
            y.same_field(x),
            x.m() == self.m(),
            y.m() == self.m(),
            x.same_field(x),
            y.same_field(y),
    {
        lemma_equiv_sym(&y.ctx, &self.ctx);
        lemma_equiv_trans(&x.ctx, &self.ctx, &y.ctx);
        lemma_equiv_sym(&x.ctx, &y.ctx);
        lemma_equiv_sym(&x.ctx, &self.ctx);
        lemma_equiv_trans(&x.ctx, &self.ctx, &x.ctx);
        lemma_equiv_trans(&y.ctx, &self.ctx, &y.ctx);
    }

    /// Doubles a point: the identity and the 2-torsion case (`x == 0`) give
    /// the identity; otherwise the tangent construction with
    /// `lambda = x + y/x` applies exactly.
    pub fn double(&self, point: &BinaryPoint) -> (r: Result<BinaryPoint, FieldError>)
        requires
            self.wf(),
            self.point_wf(point),
        ensures
            r is Ok ==> self.point_wf(&r->Ok_0) && bp_view(&r->Ok_0) == bp_double_spec(
                bp_view(point),
                self.a.v(),
                self.m(),
            ),
            (bp_view(point).0 || bp_view(point).1 == 0) ==> r is Ok,
            (!bp_view(point).0 && exists|i: nat|
                bitlen(i) < bitlen(self.m()) && #[trigger] f2_mul_spec(
                    bp_view(point).1,
                    i,
                    self.m(),
                ) == 1) ==> r is Ok,
            // Success, if and only if: doubling the point is defined.
            r is Ok <==> bp_double_ok(bp_view(point), self.m()),
            r is Err ==> r->Err_0 == FieldError::NonInvertible,
    {
        match point {
            BinaryPoint::Infinity => Ok(BinaryPoint::Infinity),
            BinaryPoint::Affine { x, y } => {
                if x.is_zero() {
                    return Ok(BinaryPoint::Infinity);
                }
                proof {
                    self.lemma_coords(x, y);
                }
                let quot = match y.div(x) {
                    Ok(v) => v,
                    Err(_) => {
                        return Err(FieldError::NonInvertible);
                    },
                };
                proof {
                    lemma_equiv_trans(&quot.ctx, &y.ctx, &self.ctx);
                    lemma_equiv_sym(&quot.ctx, &self.ctx);
                    lemma_equiv_trans(&x.ctx, &self.ctx, &quot.ctx);
                }
                let lambda = x.add(&quot);
                proof {
                    lemma_equiv_trans(&lambda.ctx, &x.ctx, &self.ctx);
                    lemma_equiv_sym(&lambda.ctx, &self.ctx);
                    lemma_equiv_trans(&lambda.ctx, &self.ctx, &lambda.ctx);
                }
                let lambda2 = lambda.mul(&lambda);
                proof {
                    lemma_equiv_trans(&lambda2.ctx, &lambda.ctx, &self.ctx);
                    lemma_equiv_sym(&lambda2.ctx, &self.ctx);
                    lemma_equiv_trans(&lambda.ctx, &self.ctx, &lambda2.ctx);
                    lemma_equiv_sym(&lambda.ctx, &lambda2.ctx);
                }
                let l2l = lambda2.add(&lambda);
                proof {
                    lemma_equiv_trans(&l2l.ctx, &lambda2.ctx, &self.ctx);
                    lemma_equiv_sym(&l2l.ctx, &self.ctx);
                    lemma_equiv_trans(&self.a.ctx, &self.ctx, &l2l.ctx);
                    lemma_equiv_sym(&self.a.ctx, &l2l.ctx);
                }
                let x_r = l2l.add(&self.a);
                proof {
                    lemma_equiv_trans(&x_r.ctx, &l2l.ctx, &self.ctx);
                    lemma_equiv_sym(&x_r.ctx, &self.ctx);
                    lemma_equiv_trans(&lambda.ctx, &self.ctx, &x_r.ctx);
                }
                let x2 = x.mul(x);
                let lxr = lambda.mul(&x_r);
                proof {
                    lemma_equiv_trans(&x2.ctx, &x.ctx, &self.ctx);
                    lemma_equiv_trans(&lxr.ctx, &lambda.ctx, &self.ctx);
                    lemma_equiv_sym(&lxr.ctx, &self.ctx);
                    lemma_equiv_trans(&x2.ctx, &self.ctx, &lxr.ctx);
                }
                let s1 = x2.add(&lxr);
                proof {
                    lemma_equiv_trans(&s1.ctx, &x2.ctx, &self.ctx);
                    lemma_equiv_sym(&s1.ctx, &self.ctx);
                    lemma_equiv_trans(&x_r.ctx, &self.ctx, &s1.ctx);
                    lemma_equiv_sym(&x_r.ctx, &s1.ctx);
                }
                let y_r = s1.add(&x_r);
                proof {
                    lemma_equiv_trans(&y_r.ctx, &s1.ctx, &self.ctx);
                }
                Ok(BinaryPoint::Affine { x: x_r, y: y_r })
            },
        }
    }

    /// Adds two points: identity cases, the inverse pair case (`x1 == x2`,
    /// `y1 != y2`), delegation to doubling when the points coincide, and
    /// otherwise the chord construction with `lambda = (y1+y2)/(x1+x2)`.
    pub fn add(&self, p1: &BinaryPoint, p2: &BinaryPoint) -> (r: Result<BinaryPoint, FieldError>)
        requires
            self.wf(),
            self.point_wf(p1),
            self.point_wf(p2),
        ensures
            r is Ok ==> self.point_wf(&r->Ok_0) && bp_view(&r->Ok_0) == bp_add_spec(
                bp_view(p1),
                bp_view(p2),
                self.a.v(),
                self.m(),
            ),
            bp_view(p1).0 || bp_view(p2).0 ==> r is Ok,
            (!bp_view(p1).0 && !bp_view(p2).0 && bp_view(p1).1 == bp_view(p2).1 && bp_view(p1).2
                != bp_view(p2).2) ==> r is Ok,
            (!bp_view(p1).0 && !bp_view(p2).0 && bp_view(p1).1 == bp_view(p2).1 && bp_view(p1).2
                == bp_view(p2).2 && (bp_view(p1).1 == 0 || exists|i: nat|
                bitlen(i) < bitlen(self.m()) && #[trigger] f2_mul_spec(
                    bp_view(p1).1,
                    i,
                    self.m(),
                ) == 1)) ==> r is Ok,
            (!bp_view(p1).0 && !bp_view(p2).0 && bp_view(p1).1 != bp_view(p2).1 && exists|i: nat|
                bitlen(i) < bitlen(self.m()) && #[trigger] f2_mul_spec(
                    nx(bp_view(p1).1, bp_view(p2).1),
                    i,
                    self.m(),
                ) == 1) ==> r is Ok,
            // Success, if and only if: adding the points is defined.
            r is Ok <==> bp_add_ok(bp_view(p1), bp_view(p2), self.m()),
            r is Err ==> r->Err_0 == FieldError::NonInvertible,
    {
        match (p1, p2) {
            (BinaryPoint::Infinity, _) => {
                let c = self.clone_point(p2);
                Ok(c)
            },
            (_, BinaryPoint::Infinity) => {
                let c = self.clone_point(p1);
                Ok(c)
            },
            (
                BinaryPoint::Affine { x: x1, y: y1 },
                BinaryPoint::Affine { x: x2, y: y2 },
            ) => {
                proof {
                    self.lemma_coords(x1, y1);
                    self.lemma_coords(x2, y2);
                    self.lemma_coords(x1, x2);
                    self.lemma_coords(y1, y2);
                    self.lemma_coords(x1, y2);
                    self.lemma_coords(x2, y1);
                }
                if big_eq(&x1.coeffs, &x2.coeffs) {
                    if big_eq(&y1.coeffs, &y2.coeffs) {
                        return self.double(p1);
                    } else {
                        return Ok(BinaryPoint::Infinity);
                    }
                }
                let num = y1.add(y2);
                let den = x1.add(x2);
                proof {
                    lemma_equiv_trans(&num.ctx, &y1.ctx, &self.ctx);
                    lemma_equiv_trans(&den.ctx, &x1.ctx, &self.ctx);
                    lemma_equiv_sym(&den.ctx, &self.ctx);
                    lemma_equiv_trans(&num.ctx, &self.ctx, &den.ctx);
                }
                let lambda = match num.div(&den) {
                    Ok(v) => v,
                    Err(_) => {
                        return Err(FieldError::NonInvertible);
                    },
                };
                proof {
                    lemma_equiv_trans(&lambda.ctx, &num.ctx, &self.ctx);
                    lemma_equiv_sym(&lambda.ctx, &self.ctx);
                    lemma_equiv_trans(&lambda.ctx, &self.ctx, &lambda.ctx);
                }
                let lambda2 = lambda.mul(&lambda);
                proof {
                    lemma_equiv_trans(&lambda2.ctx, &lambda.ctx, &self.ctx);
                    lemma_equiv_sym(&lambda2.ctx, &self.ctx);
                    lemma_equiv_trans(&lambda.ctx, &self.ctx, &lambda2.ctx);
                    lemma_equiv_sym(&lambda.ctx, &lambda2.ctx);
                }
                let s1 = lambda2.add(&lambda);
                proof {
                    lemma_equiv_trans(&s1.ctx, &lambda2.ctx, &self.ctx);
                    lemma_equiv_sym(&s1.ctx, &self.ctx);
                    lemma_equiv_trans(&x1.ctx, &self.ctx, &s1.ctx);
                    lemma_equiv_sym(&x1.ctx, &s1.ctx);
                }
                let s2 = s1.add(x1);
                proof {
                    lemma_equiv_trans(&s2.ctx, &s1.ctx, &self.ctx);
                    lemma_equiv_sym(&s2.ctx, &self.ctx);
                    lemma_equiv_trans(&x2.ctx, &self.ctx, &s2.ctx);
                    lemma_equiv_sym(&x2.ctx, &s2.ctx);
                }
                let s3 = s2.add(x2);
                proof {
                    lemma_equiv_trans(&s3.ctx, &s2.ctx, &self.ctx);
                    lemma_equiv_sym(&s3.ctx, &self.ctx);
                    lemma_equiv_trans(&self.a.ctx, &self.ctx, &s3.ctx);
                    lemma_equiv_sym(&self.a.ctx, &s3.ctx);
                }
                let x_r = s3.add(&self.a);
                proof {
                    lemma_equiv_trans(&x_r.ctx, &s3.ctx, &self.ctx);
                    lemma_equiv_sym(&x_r.ctx, &self.ctx);
                    lemma_equiv_trans(&x1.ctx, &self.ctx, &x_r.ctx);
                    lemma_equiv_sym(&x1.ctx, &x_r.ctx);
                }
                let x1xr = x1.add(&x_r);
                proof {
                    lemma_equiv_trans(&x1xr.ctx, &x1.ctx, &self.ctx);
                    lemma_equiv_sym(&x1xr.ctx, &self.ctx);
                    lemma_equiv_trans(&lambda.ctx, &self.ctx, &x1xr.ctx);
                }
                let t1 = lambda.mul(&x1xr);
                proof {
                    lemma_equiv_trans(&t1.ctx, &lambda.ctx, &self.ctx);
                    lemma_equiv_sym(&t1.ctx, &self.ctx);
                    lemma_equiv_trans(&x_r.ctx, &self.ctx, &t1.ctx);
                    lemma_equiv_sym(&x_r.ctx, &t1.ctx);
                }
                let t2 = t1.add(&x_r);
                proof {
                    lemma_equiv_trans(&t2.ctx, &t1.ctx, &self.ctx);
                    lemma_equiv_sym(&t2.ctx, &self.ctx);
                    lemma_equiv_trans(&y1.ctx, &self.ctx, &t2.ctx);
                    lemma_equiv_sym(&y1.ctx, &t2.ctx);
                }
                let y_r = t2.add(y1);
                proof {
                    lemma_equiv_trans(&y_r.ctx, &t2.ctx, &self.ctx);
                }
                Ok(BinaryPoint::Affine { x: x_r, y: y_r })
            },
        }
    }

    /// Copies a point of this curve's field.
    fn clone_point(&self, p: &BinaryPoint) -> (r: BinaryPoint)
        requires
            self.wf(),
            self.point_wf(p),
        ensures
            self.point_wf(&r),
            bp_view(&r) == bp_view(p),
    {
        match p {
            BinaryPoint::Infinity => BinaryPoint::Infinity,
            BinaryPoint::Affine { x, y } => {
                let xc = x.clone();
                let yc = y.clone();
                proof {
                    lemma_equiv_trans(&xc.ctx, &x.ctx, &self.ctx);
                    lemma_equiv_trans(&yc.ctx, &y.ctx, &self.ctx);
                }
                BinaryPoint::Affine { x: xc, y: yc }
            },
        }
    }

    /// Double-and-add scalar multiplication, scanning the scalar's bits from
    /// least to most significant; not constant-time.
    pub fn mul(&self, k: &BigUint, point: &BinaryPoint) -> (r: Result<BinaryPoint, FieldError>)
        requires
            self.wf(),
            self.point_wf(point),
        ensures
            r is Ok ==> self.point_wf(&r->Ok_0) && bp_view(&r->Ok_0) == bp_mul_ladder(
                big_nat(*k),
                bp_view(point),
                (true, 0, 0),
                self.a.v(),
                self.m(),
            ),
            big_nat(*k) == 0 ==> r is Ok && bp_view(&r->Ok_0) == (true, 0nat, 0nat),
            bp_view(point).0 ==> r is Ok && bp_view(&r->Ok_0).0,
            // Success, if and only if: every pass of the ladder is defined.
            r is Ok <==> bp_ladder_ok(big_nat(*k), bp_view(point), (true, 0, 0), self.a.v(), self.m()),
            r is Err ==> r->Err_0 == FieldError::NonInvertible,
    {
        let ghost av = self.a.v();
        let ghost mv = self.m();
        let mut result = BinaryPoint::Infinity;
        let mut temp = self.clone_point(point);
        let mut k_val = big_clone(k);
        while !big_is_zero(&k_val)
            invariant
                self.wf(),
                av == self.a.v(),
                mv == self.m(),
                self.point_wf(&result),
                self.point_wf(&temp),
                big_nat(*k) == 0 ==> big_nat(k_val) == 0,
                bp_view(point).0 ==> (bp_view(&result).0 && bp_view(&temp).0),
                bp_mul_ladder(big_nat(*k), bp_view(point), (true, 0, 0), av, mv) == bp_mul_ladder(
                    big_nat(k_val),
                    bp_view(&temp),
                    bp_view(&result),
                    av,
                    mv,
                ),
                bp_ladder_ok(big_nat(*k), bp_view(point), (true, 0, 0), av, mv)
                    == bp_ladder_ok(big_nat(k_val), bp_view(&temp), bp_view(&result), av, mv),
            decreases big_nat(k_val),
        {
            let ghost kv = big_nat(k_val);
            let ghost tv0 = bp_view(&temp);
            let ghost rv0 = bp_view(&result);
            proof {
                crate::gf2::lemma_bit_at_zero(kv);
            }
            if big_bit(&k_val, 0) {
                let next = match self.add(&result, &temp) {
                    Ok(v) => v,
                    Err(_) => {
                        proof {
                            assert(!bp_ladder_ok(kv, tv0, rv0, av, mv));
                        }
                        return Err(FieldError::NonInvertible);
                    },
                };
                result = next;
            }
            let doubled = match self.double(&temp) {
                Ok(v) => v,
                Err(_) => {
                    proof {
                        assert(!bp_ladder_ok(kv, tv0, rv0, av, mv));
                    }
                    return Err(FieldError::NonInvertible);
                },
            };
            temp = doubled;
            k_val = big_shr(&k_val, 1);
            proof {
                vstd::arithmetic::power2::lemma2_to64();
                assert(big_nat(k_val) == kv / 2);
                assert(bp_ladder_ok(kv, tv0, rv0, av, mv) == bp_ladder_ok(
                    big_nat(k_val),
                    bp_view(&temp),
                    bp_view(&result),
                    av,
                    mv,
                ));
            }
        }
        Ok(result)
    }

    /// Constant-time-style scalar multiplication: the scalar is reduced
    /// modulo `order` and the ladder runs for exactly the bit length of
    /// `order`, adding into a discarded accumulator on zero bits.
    #[verifier::rlimit(100)]
    pub fn mul_secure(&self, k: &BigUint, point: &BinaryPoint, order: &BigUint) -> (r: Result<
        BinaryPoint,
        FieldError,
    >)
        requires
            self.wf(),
            self.point_wf(point),
            big_nat(*order) > 0,
        ensures
            r is Ok ==> self.point_wf(&r->Ok_0) && bp_view(&r->Ok_0) == bp_mul_ladder(
                big_nat(*k) % big_nat(*order),
                bp_view(point),
                (true, 0, 0),
                self.a.v(),
                self.m(),
            ),
            bp_view(point).0 ==> r is Ok && bp_view(&r->Ok_0).0,
            (r is Ok && big_nat(*k) % big_nat(*order) == 0) ==> bp_view(&r->Ok_0) == (
                true,
                0nat,
                0nat,
            ),
            // Success, if and only if: every pass of the masked ladder is
            // defined, over the reduced scalar and the bit width of the order.
            r is Ok <==> bp_secure_ladder_ok(
                big_nat(*k) % big_nat(*order),
                bitlen(big_nat(*order)),
                bp_view(point),
                (true, 0, 0),
                (true, 0, 0),
                self.a.v(),
                self.m(),
            ),
            r is Err ==> r->Err_0 == FieldError::NonInvertible,
    {
        let ghost av = self.a.v();
        let ghost mv = self.m();
        let k_red = big_rem(k, order);
        let ghost kr = big_nat(k_red);
        let nbits = big_bits(order);
        let mut result = BinaryPoint::Infinity;
        let mut dummy = BinaryPoint::Infinity;
        let mut temp = self.clone_point(point);
        let mut shift: u64 = 0;
        proof {
            vstd::arithmetic::power2::lemma2_to64();
            assert(kr / pow2(0) == kr);
        }
        while shift < nbits
            invariant
                self.wf(),
                av == self.a.v(),
                mv == self.m(),
                big_nat(k_red) == kr,
                kr == big_nat(*k) % big_nat(*order),
                nbits as nat == bitlen(big_nat(*order)),
                shift <= nbits,
                self.point_wf(&result),
                self.point_wf(&dummy),
                self.point_wf(&temp),
                bp_view(point).0 ==> (bp_view(&result).0 && bp_view(&temp).0 && bp_view(
                    &dummy,
                ).0),
                bp_mul_ladder(kr, bp_view(point), (true, 0, 0), av, mv) == bp_mul_ladder(
                    kr / pow2(shift as nat),
                    bp_view(&temp),
                    bp_view(&result),
                    av,
                    mv,
                ),
                bp_secure_ladder_ok(kr, nbits as nat, bp_view(point), (true, 0, 0), (true, 0, 0), av, mv)
                    == bp_secure_ladder_ok(
                    kr / pow2(shift as nat),
                    (nbits - shift) as nat,
                    bp_view(&temp),
                    bp_view(&result),
                    bp_view(&dummy),
                    av,
                    mv,
                ),
            decreases nbits - shift,
        {
            let ghost s = shift as nat;
            let ghost krem = kr / pow2(s);
            let ghost tv0 = bp_view(&temp);
            let ghost rv0 = bp_view(&result);
            let ghost dv0 = bp_view(&dummy);
            let ghost nrem = (nbits - shift) as nat;
            let bit = big_bit(&k_red, shift);
            proof {
                assert(bit <==> krem % 2 == 1);
            }
            if bit {
                let next = match self.add(&result, &temp) {
                    Ok(v) => v,
                    Err(_) => {
                        proof {
                            lemma_bp_secure_err_live(krem, nrem, tv0, rv0, dv0, av, mv);
                        }
                        return Err(FieldError::NonInvertible);
                    },
                };
                result = next;
            } else {
                let next = match self.add(&dummy, &temp) {
                    Ok(v) => v,
                    Err(_) => {
                        proof {
                            lemma_bp_secure_err_dummy(krem, nrem, tv0, rv0, dv0, av, mv);
                        }
                        return Err(FieldError::NonInvertible);
                    },
                };
                dummy = next;
            }
            let doubled = match self.double(&temp) {
                Ok(v) => v,
                Err(_) => {
                    proof {
                        lemma_bp_secure_err_double(krem, nrem, tv0, rv0, dv0, av, mv);
                    }
                    return Err(FieldError::NonInvertible);
                },
            };
            temp = doubled;
            shift = shift + 1;
            proof {
                vstd::arithmetic::power2::lemma_pow2_pos(s);
                vstd::arithmetic::power2::lemma_pow2_unfold(s + 1);
                lemma_div_denominator(kr as int, pow2(s) as int, 2);
                assert(krem / 2 == kr / pow2(s + 1));
                lemma_bp_secure_step(krem, nrem, tv0, rv0, dv0, av, mv);
            }
        }
        proof {
            lemma_mod_division_less_than_divisor(big_nat(*k) as int, big_nat(*order) as int);
            crate::gf2::lemma_bitlen_mono(kr, big_nat(*order));
            crate::gf2::lemma_bitlen_bounds(kr);
            if crate::gf2::bitlen(kr) < nbits as nat {
                vstd::arithmetic::power2::lemma_pow2_strictly_increases(bitlen(kr), nbits as nat);
            }
            vstd::arithmetic::div_mod::lemma_basic_div(kr as int, pow2(nbits as nat) as int);
        }
        Ok(result)
    }
}

} // verus!
