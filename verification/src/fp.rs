//! The prime field F_p: arbitrary-precision integers modulo a caller-supplied
//! prime.  Every operation's contract states the exact residue it returns;
//! inversion is the extended Euclidean algorithm, proved against a Bezout
//! invariant.

use vstd::prelude::*;
use vstd::arithmetic::power::{
    pow,
    lemma_pow_adds,
    lemma_pow_multiplies,
    lemma_pow0,
    lemma_pow1,
    lemma_pow_mod_noop,
};
use vstd::arithmetic::power2::pow2;
use vstd::arithmetic::div_mod::{
    lemma_fundamental_div_mod,
    lemma_mul_mod_noop_left,
    lemma_mul_mod_noop_right,
    lemma_mul_mod_noop_general,
    lemma_add_mod_noop,
    lemma_small_mod,
    lemma_mod_self_0,
    lemma_mod_bound,
    lemma_mod_division_less_than_divisor,
};
use vstd::arithmetic::mul::lemma_mul_is_commutative;
use num::BigUint;
use crate::bigint::{
    big_nat,
    big_clone,
    big_eq,
    big_lt,
    big_is_zero,
    big_add,
    big_sub,
    big_mul,
    big_div,
    big_rem,
    big_from_u64,
    big_bit,
    big_bits,
    big_shr,
};
use crate::context::FieldContext;
use crate::FieldError;

verus! {

/// `(a + b) mod p`.
pub open spec fn add_mod(a: nat, b: nat, p: nat) -> nat
    recommends
        p > 0,
{
    (a + b) % p
}

/// `(a - b) mod p`, for operands already reduced below `p`.
pub open spec fn sub_mod(a: nat, b: nat, p: nat) -> nat
    recommends
        p > 0,
        b <= a + p,
{
    ((a + p - b) % (p as int)) as nat
}

/// `(-a) mod p`, for an operand already reduced below `p`.
pub open spec fn neg_mod(a: nat, p: nat) -> nat
    recommends
        p > 0,
        a <= p,
{
    ((p - a) % (p as int)) as nat
}

/// `(a * b) mod p`.
pub open spec fn mul_mod(a: nat, b: nat, p: nat) -> nat
    recommends
        p > 0,
{
    (a * b) % p
}

/// `a^e mod p`.
pub open spec fn pow_mod(a: nat, e: nat, p: nat) -> nat
    recommends
        p > 0,
{
    (pow(a as int, e) % (p as int)) as nat
}

/// Greatest common divisor by Euclid's recursion.
pub open spec fn gcd_nat(a: nat, b: nat) -> nat
    decreases b,
{
    if b == 0 {
        a
    } else {
        gcd_nat(b, a % b)
    }
}

/// The multiplicative inverse of `a` modulo `p`; meaningful whenever
/// `gcd_nat(a, p) == 1`, in which case it is the unique reduced solution of
/// `a * x == 1 (mod p)`.
pub open spec fn inv_mod(a: nat, p: nat) -> nat {
    choose|x: nat| x < p && mul_mod(a, x, p) == 1
}

/// A reduced inverse modulo a modulus of at least 2 is unique.
pub proof fn lemma_inv_mod_unique(a: nat, p: nat, x: nat, y: nat)
    requires
        p >= 2,
        x < p,
        y < p,
        mul_mod(a, x, p) == 1,
        mul_mod(a, y, p) == 1,
    ensures
        x == y,
{
    let pi = p as int;
    let ax = (a * x) as int;
    let ay = (a * y) as int;
    assert(ax % pi == 1 && ay % pi == 1);
    lemma_mul_mod_noop_left(ax, y as int, pi);
    lemma_mul_mod_noop_left(ay, x as int, pi);
    assert(ax * (y as int) == ay * (x as int)) by (nonlinear_arith)
        requires
            ax == (a * x) as int,
            ay == (a * y) as int,
    ;
    lemma_small_mod(x, p);
    lemma_small_mod(y, p);
    assert(((ax % pi) * (y as int)) % pi == (1 * (y as int)) % pi);
    assert((1 * (y as int)) % pi == (y as int) % pi);
    assert(((ay % pi) * (x as int)) % pi == (1 * (x as int)) % pi);
    assert((1 * (x as int)) % pi == (x as int) % pi);
}

/// A signed arbitrary-precision integer, used for the Bezout coefficients of
/// the extended Euclidean algorithm.
#[derive(Debug)]
pub struct SignedBig {
    pub negative: bool,
    pub magnitude: BigUint,
}

impl SignedBig {
    /// The integer this value denotes.
    pub open spec fn v(&self) -> int {
        if self.negative {
            -(big_nat(self.magnitude) as int)
        } else {
            big_nat(self.magnitude) as int
        }
    }

    fn from_u64(x: u64, negative: bool) -> (r: SignedBig)
        ensures
            r.v() == if negative {
                -(x as int)
            } else {
                x as int
            },
    {
        SignedBig { negative, magnitude: big_from_u64(x) }
    }

    /// `x - q * y` on signed values.
    fn sub_mul(x: &SignedBig, q: &BigUint, y: &SignedBig) -> (r: SignedBig)
        ensures
            r.v() == x.v() - big_nat(*q) * y.v(),
    {
        let qm = big_mul(q, &y.magnitude);
        proof {
            assert(big_nat(*q) * y.v() == if y.negative {
                -(big_nat(qm) as int)
            } else {
                big_nat(qm) as int
            }) by (nonlinear_arith)
                requires
                    big_nat(qm) == big_nat(*q) * big_nat(y.magnitude),
                    y.v() == if y.negative {
                        -(big_nat(y.magnitude) as int)
                    } else {
                        big_nat(y.magnitude) as int
                    };
        }
        if x.negative != y.negative {
            // x and -q*y share x's sign: magnitudes add.
            SignedBig { negative: x.negative, magnitude: big_add(&x.magnitude, &qm) }
        } else {
            if big_lt(&x.magnitude, &qm) {
                SignedBig { negative: !x.negative, magnitude: big_sub(&qm, &x.magnitude) }
            } else {
                SignedBig { negative: x.negative, magnitude: big_sub(&x.magnitude, &qm) }
            }
        }
    }
}

/// An element of F_p, holding its field context and a value reduced below
/// the modulus.
#[derive(Debug)]
pub struct FpElement {
    pub ctx: FieldContext,
    pub val: BigUint,
}

impl FpElement {
    /// The residue this element holds.
    pub open spec fn v(&self) -> nat {
        big_nat(self.val)
    }

    /// The modulus of this element's field.
    pub open spec fn p(&self) -> nat {
        self.ctx.prime_nat()
    }

    pub open spec fn wf(&self) -> bool {
        &&& self.ctx.wf()
        &&& (self.ctx is Prime || self.ctx is Extension)
        &&& self.v() < self.p()
    }

    /// Operands of a binary operation must come from the same field.
    pub open spec fn same_field(&self, other: &FpElement) -> bool {
        self.ctx.equiv(&other.ctx)
    }

    /// Builds the element `val mod p` of the context's prime field.
    pub fn new(context: &FieldContext, val: BigUint) -> (r: FpElement)
        requires
            context.wf(),
            context is Prime || context is Extension,
        ensures
            r.wf(),
            r.ctx.equiv(context),
            r.v() == big_nat(val) % context.prime_nat(),
    {
        FpElement { ctx: context.clone(), val: big_rem(&val, context.prime_ref()) }
    }

    /// The additive identity.
    pub fn zero(ctx: &FieldContext) -> (r: FpElement)
        requires
            ctx.wf(),
            ctx is Prime || ctx is Extension,
        ensures
            r.wf(),
            r.ctx.equiv(ctx),
            r.v() == 0,
    {
        let z = big_from_u64(0);
        proof {
            lemma_small_mod(0, ctx.prime_nat());
        }
        FpElement::new(ctx, z)
    }

    /// The multiplicative identity.
    pub fn one(ctx: &FieldContext) -> (r: FpElement)
        requires
            ctx.wf(),
            ctx is Prime || ctx is Extension,
        ensures
            r.wf(),
            r.ctx.equiv(ctx),
            r.v() == 1,
    {
        let o = big_from_u64(1);
        proof {
            lemma_small_mod(1, ctx.prime_nat());
        }
        FpElement::new(ctx, o)
    }

    pub fn is_zero(&self) -> (r: bool)
        ensures
            r <==> self.v() == 0,
    {
        big_is_zero(&self.val)
    }

    /// Field addition: the sum reduced modulo `p`.
    pub fn add(&self, other: &FpElement) -> (r: FpElement)
        requires
            self.wf(),
            other.wf(),
            self.same_field(other),
        ensures
            r.wf(),
            r.ctx.equiv(&self.ctx),
            r.v() == add_mod(self.v(), other.v(), self.p()),
    {
        FpElement::new(&self.ctx, big_add(&self.val, &other.val))
    }

    /// Field subtraction: `self - other` reduced modulo `p`.
    pub fn sub(&self, other: &FpElement) -> (r: FpElement)
        requires
            self.wf(),
            other.wf(),
            self.same_field(other),
        ensures
            r.wf(),
            r.ctx.equiv(&self.ctx),
            r.v() == sub_mod(self.v(), other.v(), self.p()),
    {
        let shifted = big_add(&self.val, self.ctx.prime_ref());
        let diff = big_sub(&shifted, &other.val);
        FpElement::new(&self.ctx, diff)
    }

    /// Additive inverse: `p - v` for a nonzero value, zero otherwise.
    pub fn neg(&self) -> (r: FpElement)
        requires
            self.wf(),
        ensures
            r.wf(),
            r.ctx.equiv(&self.ctx),
            r.v() == neg_mod(self.v(), self.p()),
    {
        if big_is_zero(&self.val) {
            proof {
                lemma_mod_self_0(self.p() as int);
            }
            FpElement::new(&self.ctx, big_clone(&self.val))
        } else {
            let diff = big_sub(self.ctx.prime_ref(), &self.val);
            FpElement::new(&self.ctx, diff)
        }
    }

    /// Field multiplication: the product reduced modulo `p`.
    pub fn mul(&self, other: &FpElement) -> (r: FpElement)
        requires
            self.wf(),
            other.wf(),
            self.same_field(other),
        ensures
            r.wf(),
            r.ctx.equiv(&self.ctx),
            r.v() == mul_mod(self.v(), other.v(), self.p()),
    {
        let prod = big_mul(&self.val, &other.val);
        FpElement::new(&self.ctx, prod)
    }

    /// Extended Euclidean algorithm: the gcd of `a` and `b` together with
    /// Bezout coefficients `x`, `y` such that `x*a + y*b == gcd`.
    pub fn extended_gcd(a: &BigUint, b: &BigUint) -> (r: (BigUint, SignedBig, SignedBig))
        ensures
            big_nat(r.0) == gcd_nat(big_nat(*a), big_nat(*b)),
            r.1.v() * big_nat(*a) + r.2.v() * big_nat(*b) == big_nat(r.0) as int,
    {
        let ghost na = big_nat(*a);
        let ghost nb = big_nat(*b);
        let mut old_r = big_clone(a);
        let mut r = big_clone(b);
        let mut old_s = SignedBig::from_u64(1, false);
        let mut s = SignedBig::from_u64(0, false);
        let mut old_t = SignedBig::from_u64(0, false);
        let mut t = SignedBig::from_u64(1, false);

        while !big_is_zero(&r)
            invariant
                gcd_nat(big_nat(old_r), big_nat(r)) == gcd_nat(na, nb),
                old_s.v() * na + old_t.v() * nb == big_nat(old_r) as int,
                s.v() * na + t.v() * nb == big_nat(r) as int,
            decreases big_nat(r),
        {
            let quotient = big_div(&old_r, &r);
            let qr = big_mul(&quotient, &r);
            proof {
                lemma_fundamental_div_mod(big_nat(old_r) as int, big_nat(r) as int);
                lemma_mul_is_commutative(big_nat(r) as int, big_nat(quotient) as int);
            }
            let new_r = big_sub(&old_r, &qr);
            let new_s = SignedBig::sub_mul(&old_s, &quotient, &s);
            let new_t = SignedBig::sub_mul(&old_t, &quotient, &t);
            proof {
                // The remainder update keeps the gcd, by one unfolding of
                // Euclid's recursion.
                assert(big_nat(new_r) == big_nat(old_r) % big_nat(r));
                // The Bezout identity is preserved by the simultaneous update.
                let q = big_nat(quotient) as int;
                let osv = old_s.v();
                let otv = old_t.v();
                let sv = s.v();
                let tv = t.v();
                assert((osv - q * sv) * na + (otv - q * tv) * nb == (osv * na + otv * nb) - q * (sv
                    * na + tv * nb)) by (nonlinear_arith);
            }
            old_r = r;
            r = new_r;
            old_s = s;
            s = new_s;
            old_t = t;
            t = new_t;
        }
        (old_r, old_s, old_t)
    }

    /// Multiplicative inverse by the extended Euclidean algorithm.  Succeeds
    /// exactly when the value is a unit modulo `p`, i.e. `gcd(v, p) == 1`;
    /// a non-unit (in particular zero) is reported as `NonInvertible`.
    pub fn inverse(&self) -> (r: Result<FpElement, FieldError>)
        requires
            self.wf(),
        ensures
            r is Ok <==> gcd_nat(self.v(), self.p()) == 1,
            r is Ok ==> {
                &&& r->Ok_0.wf()
                &&& r->Ok_0.ctx.equiv(&self.ctx)
                &&& mul_mod(self.v(), r->Ok_0.v(), self.p()) == 1
                &&& r->Ok_0.v() == inv_mod(self.v(), self.p())
            },
            r is Err ==> r->Err_0 == FieldError::NonInvertible,
    {
        let m = self.ctx.prime_ref();
        let (g, x, y) = FpElement::extended_gcd(&self.val, m);
        let one = big_from_u64(1);
        if !big_eq(&g, &one) {
            return Err(FieldError::NonInvertible);
        }
        let ghost a = self.v();
        let ghost p = self.p();
        let ghost xv = x.v();
        // Reduce the signed Bezout coefficient into [0, p).
        let xm = big_rem(&x.magnitude, m);
        let inv = if x.negative {
            if big_is_zero(&xm) {
                big_from_u64(0)
            } else {
                big_sub(m, &xm)
            }
        } else {
            xm
        };
        proof {
            lemma_small_mod(0, p);
            lemma_canonical_residue(xv, p, big_nat(inv));
            // From Bezout: x*a == 1 - y*p, hence (x mod p) * a == 1 mod p.
            let yv = y.v();
            assert(xv * a + yv * p == 1);
            assert(xv * a == 1 + (-yv) * (p as int)) by (nonlinear_arith)
                requires
                    xv * a + yv * p == 1,
            ;
            lemma_mod_multiple_shift(1int, -yv, p);
            assert((xv * a) % (p as int) == 1int % (p as int));
            lemma_small_mod(1, p);
            lemma_mul_mod_noop_left(xv, a as int, p as int);
            assert((big_nat(inv) * a) % p == 1);
            assert(big_nat(inv) * a == a * big_nat(inv)) by (nonlinear_arith);
            // Pin the result to the unique reduced inverse.
            assert(mul_mod(a, big_nat(inv), p) == 1);
            assert(exists|z: nat| z < p && mul_mod(a, z, p) == 1) by {
                assert(big_nat(inv) < p && mul_mod(a, big_nat(inv), p) == 1);
            };
            let w = inv_mod(a, p);
            assert(w < p && mul_mod(a, w, p) == 1);
            lemma_inv_mod_unique(a, p, big_nat(inv), w);
        }
        Ok(FpElement { ctx: self.ctx.clone(), val: inv })
    }

    /// Square-and-multiply exponentiation over the exponent's bits; not
    /// constant-time.  Returns exactly `v^e mod p`.
    pub fn pow(&self, exp: &BigUint) -> (r: FpElement)
        requires
            self.wf(),
        ensures
            r.wf(),
            r.ctx.equiv(&self.ctx),
            r.v() == pow_mod(self.v(), big_nat(*exp), self.p()),
    {
        let ghost a0 = self.v();
        let ghost e0 = big_nat(*exp);
        let ghost p = self.p();
        let m = self.ctx.prime_ref();
        let mut base = big_clone(&self.val);
        let mut result = big_from_u64(1);
        let mut e_val = big_clone(exp);
        while !big_is_zero(&e_val)
            invariant
                p >= 2,
                p == self.p(),
                self.wf(),
                big_nat(*m) == p,
                big_nat(result) < p,
                big_nat(base) < p,
                (big_nat(result) * pow(big_nat(base) as int, big_nat(e_val))) % (p as int) == pow(
                    a0 as int,
                    e0,
                ) % (p as int),
            decreases big_nat(e_val),
        {
            let ghost rr = big_nat(result);
            let ghost bb = big_nat(base);
            let ghost ee = big_nat(e_val);
            proof {
                crate::gf2::lemma_bit_at_zero(ee);
            }
            if big_bit(&e_val, 0) {
                let t = big_mul(&result, &base);
                result = big_rem(&t, m);
            }
            let t2 = big_mul(&base, &base);
            base = big_rem(&t2, m);
            e_val = big_shr(&e_val, 1);
            proof {
                vstd::arithmetic::power2::lemma2_to64();
                assert(big_nat(e_val) == ee / 2);
                lemma_mod_bound((rr * bb) as int, p as int);
                lemma_mod_bound((bb * bb) as int, p as int);
                lemma_ladder_step(rr, bb, ee, a0, e0, p, big_nat(result), big_nat(base));
            }
        }
        proof {
            vstd::arithmetic::power::lemma_pow0(big_nat(base) as int);
            lemma_small_mod(big_nat(result), p);
        }
        FpElement { ctx: self.ctx.clone(), val: result }
    }

    /// Constant-time-style exponentiation: the exponent is first reduced
    /// modulo `subgroup_order`, and the ladder then runs for exactly the bit
    /// length of `subgroup_order`, multiplying into a discarded accumulator
    /// on zero bits so that the multiplication count does not depend on the
    /// exponent.  Returns exactly `v^(e mod subgroup_order) mod p`.
    pub fn pow_secure(&self, exp: &BigUint, subgroup_order: &BigUint) -> (r: FpElement)
        requires
            self.wf(),
            big_nat(*subgroup_order) > 0,
        ensures
            r.wf(),
            r.ctx.equiv(&self.ctx),
            r.v() == pow_mod(self.v(), big_nat(*exp) % big_nat(*subgroup_order), self.p()),
    {
        let ghost a0 = self.v();
        let ghost p = self.p();
        let m = self.ctx.prime_ref();
        let e_red = big_rem(exp, subgroup_order);
        let ghost er = big_nat(e_red);
        let nbits = big_bits(subgroup_order);
        let mut base = big_clone(&self.val);
        let mut result = big_from_u64(1);
        let mut dummy = big_from_u64(1);
        let mut shift: u64 = 0;
        proof {
            vstd::arithmetic::power2::lemma2_to64();
            vstd::arithmetic::power::lemma_pow0(a0 as int);
            lemma_pow1(a0 as int);
            lemma_small_mod(1, p);
            lemma_small_mod(a0, p);
            assert(er % pow2(0) == 0);
        }
        while shift < nbits
            invariant
                p >= 2,
                p == self.p(),
                self.wf(),
                big_nat(*m) == p,
                big_nat(e_red) == er,
                shift <= nbits,
                big_nat(result) == pow_mod(a0, er % pow2(shift as nat), p),
                big_nat(base) == pow_mod(a0, pow2(shift as nat), p),
                big_nat(result) < p,
                big_nat(base) < p,
            decreases nbits - shift,
        {
            let ghost s = shift as nat;
            let ghost rr = big_nat(result);
            let ghost bb = big_nat(base);
            if big_bit(&e_red, shift) {
                let t = big_mul(&result, &base);
                result = big_rem(&t, m);
            } else {
                let t = big_mul(&dummy, &base);
                dummy = big_rem(&t, m);
            }
            let t2 = big_mul(&base, &base);
            base = big_rem(&t2, m);
            shift = shift + 1;
            proof {
                lemma_mod_pow2_split(er, s);
                lemma_mod_bound((rr * bb) as int, p as int);
                lemma_mod_bound((bb * bb) as int, p as int);
                let bitv: nat = (er / pow2(s)) % 2;
                // result accumulates the processed low bits of the exponent.
                if bitv == 1 {
                    lemma_pow_mod_mul(a0, er % pow2(s), pow2(s), p);
                    assert(big_nat(result) == pow_mod(a0, er % pow2(s) + pow2(s), p));
                } else {
                    assert(er % pow2(s + 1) == er % pow2(s));
                }
                // base squares into the next power of two.
                lemma_pow_mod_mul(a0, pow2(s), pow2(s), p);
                vstd::arithmetic::power2::lemma_pow2_unfold(s + 1);
                assert(pow2(s + 1) == pow2(s) + pow2(s));
            }
        }
        proof {
            lemma_mod_division_less_than_divisor(big_nat(*exp) as int, big_nat(
                *subgroup_order,
            ) as int);
            crate::gf2::lemma_bitlen_mono(er, big_nat(*subgroup_order));
            crate::gf2::lemma_bitlen_bounds(er);
            if crate::gf2::bitlen(er) < nbits as nat {
                vstd::arithmetic::power2::lemma_pow2_strictly_increases(
                    crate::gf2::bitlen(er),
                    nbits as nat,
                );
            }
            lemma_small_mod(er, pow2(nbits as nat));
        }
        FpElement { ctx: self.ctx.clone(), val: result }
    }

    /// Field division: multiplication by the inverse of `other`.  Succeeds
    /// exactly when `other` is a unit.
    pub fn div(&self, other: &FpElement) -> (r: Result<FpElement, FieldError>)
        requires
            self.wf(),
            other.wf(),
            self.same_field(other),
        ensures
            r is Ok <==> gcd_nat(other.v(), self.p()) == 1,
            r is Ok ==> {
                &&& r->Ok_0.wf()
                &&& r->Ok_0.ctx.equiv(&self.ctx)
                &&& r->Ok_0.v() == mul_mod(self.v(), inv_mod(other.v(), self.p()), self.p())
            },
            r is Err ==> r->Err_0 == FieldError::NonInvertible,
    {
        match other.inverse() {
            Ok(inv) => Ok(self.mul(&inv)),
            Err(e) => Err(e),
        }
    }
}

impl Clone for FpElement {
    /// The copy holds the same residue of the same field.
    fn clone(&self) -> (r: Self)
        ensures
            r.v() == self.v(),
            r.p() == self.p(),
            r.ctx.equiv(&self.ctx),
            r.wf() <==> self.wf(),
    {
        FpElement { ctx: self.ctx.clone(), val: big_clone(&self.val) }
    }
}

/// One step of the square-and-multiply ladder preserves the running product.
proof fn lemma_ladder_step(rr: nat, bb: nat, ee: nat, a0: nat, e0: nat, p: nat, rr2: nat, bb2: nat)
    requires
        p >= 2,
        ee > 0,
        (rr * pow(bb as int, ee)) % (p as int) == pow(a0 as int, e0) % (p as int),
        rr2 == if ee % 2 == 1 {
            (rr * bb) % p
        } else {
            rr
        },
        bb2 == (bb * bb) % p,
    ensures
        (rr2 * pow(bb2 as int, ee / 2)) % (p as int) == pow(a0 as int, e0) % (p as int),
{
    let pi = p as int;
    let bi = bb as int;
    let h = ee / 2;
    let bitv = ee % 2;
    lemma_pow_adds(bi, 2 * h, bitv);
    lemma_pow_multiplies(bi, 2, h);
    lemma_pow1(bi);
    lemma_pow_adds(bi, 1, 1);
    assert(pow(bi, 2) == bi * bi);
    lemma_pow_mod_noop(bi * bi, h, pi);
    assert(bb2 as int == (bi * bi) % pi);
    lemma_mul_mod_noop_right(rr2 as int, pow(bb2 as int, h), pi);
    lemma_mul_mod_noop_right(rr2 as int, pow(bi * bi, h), pi);
    assert((rr2 * pow(bb2 as int, h)) % pi == (rr2 * pow(bi * bi, h)) % pi);
    if bitv == 1 {
        assert(rr2 as int == ((rr * bb) as int) % pi);
        lemma_mul_mod_noop_left((rr * bb) as int, pow(bi * bi, h), pi);
        assert(((rr * bb) as int) * pow(bi * bi, h) == (rr as int) * pow(bi, ee))
            by (nonlinear_arith)
            requires
                pow(bi, ee) == pow(bi, 2 * h) * pow(bi, bitv),
                pow(bi, 2 * h) == pow(bi * bi, h),
                pow(bi, bitv) == bi,
                bi == bb as int,
                bitv == 1,
        ;
    } else {
        lemma_pow0(bi);
        assert((rr2 as int) * pow(bi * bi, h) == (rr as int) * pow(bi, ee)) by (nonlinear_arith)
            requires
                pow(bi, ee) == pow(bi, 2 * h) * pow(bi, bitv),
                pow(bi, 2 * h) == pow(bi * bi, h),
                pow(bi, bitv) == 1,
                bitv == 0,
                rr2 == rr,
        ;
    }
}

/// Multiplying two reduced powers of `a` adds the exponents.
proof fn lemma_pow_mod_mul(a: nat, x: nat, y: nat, p: nat)
    requires
        p >= 2,
    ensures
        (pow_mod(a, x, p) * pow_mod(a, y, p)) % p == pow_mod(a, x + y, p),
{
    let ai = a as int;
    let pi = p as int;
    lemma_pow_adds(ai, x, y);
    lemma_mul_mod_noop_general(pow(ai, x), pow(ai, y), pi);
    lemma_mod_bound(pow(ai, x), pi);
    lemma_mod_bound(pow(ai, y), pi);
}

/// Splitting a value's residue at the next power of two isolates one bit.
pub proof fn lemma_mod_pow2_split(n: nat, s: nat)
    ensures
        (n / pow2(s)) % 2 == 0 ==> n % pow2(s + 1) == n % pow2(s),
        (n / pow2(s)) % 2 == 1 ==> n % pow2(s + 1) == n % pow2(s) + pow2(s),
{
    let ps = pow2(s) as int;
    let ps1 = pow2(s + 1) as int;
    let ni = n as int;
    vstd::arithmetic::power2::lemma_pow2_pos(s);
    vstd::arithmetic::power2::lemma_pow2_pos(s + 1);
    vstd::arithmetic::power2::lemma_pow2_unfold(s + 1);
    let q = ni / ps;
    lemma_fundamental_div_mod(ni, ps);
    lemma_fundamental_div_mod(q, 2);
    lemma_mod_bound(ni, ps);
    lemma_mod_bound(q, 2);
    if q % 2 == 0 {
        assert(ni == ni % ps + (q / 2) * ps1) by (nonlinear_arith)
            requires
                ni == ps * q + ni % ps,
                q == 2 * (q / 2) + q % 2,
                q % 2 == 0,
                ps1 == 2 * ps,
        ;
        lemma_mod_multiple_shift(ni % ps, q / 2, pow2(s + 1));
        lemma_small_mod((ni % ps) as nat, pow2(s + 1));
    } else {
        assert(ni == (ni % ps + ps) + (q / 2) * ps1) by (nonlinear_arith)
            requires
                ni == ps * q + ni % ps,
                q == 2 * (q / 2) + q % 2,
                q % 2 == 1,
                ps1 == 2 * ps,
        ;
        lemma_mod_multiple_shift(ni % ps + ps, q / 2, pow2(s + 1));
        lemma_small_mod((ni % ps + ps) as nat, pow2(s + 1));
    }
}

/// `x` and `y` witness Bezout's identity for `a` and `b`.
pub open spec fn is_bezout(x: int, y: int, a: nat, b: nat) -> bool {
    x * (a as int) + y * (b as int) == gcd_nat(a, b)
}

/// Bezout's identity: the gcd is an integer combination of its arguments.
pub proof fn lemma_bezout(a: nat, b: nat)
    ensures
        exists|x: int, y: int| #[trigger] is_bezout(x, y, a, b),
    decreases b,
{
    if b == 0 {
        assert(1 * (a as int) + 0 * (b as int) == gcd_nat(a, b)) by (nonlinear_arith)
            requires
                gcd_nat(a, b) == a,
        ;
        assert(is_bezout(1, 0, a, b));
    } else {
        lemma_bezout(b, a % b);
        let (x0, y0) = choose|x: int, y: int| #[trigger] is_bezout(x, y, b, a % b);
        lemma_fundamental_div_mod(a as int, b as int);
        let q = (a as int) / (b as int);
        assert(y0 * (a as int) + (x0 - y0 * q) * (b as int) == gcd_nat(b, a % b))
            by (nonlinear_arith)
            requires
                x0 * (b as int) + y0 * ((a % b) as int) == gcd_nat(b, a % b),
                a as int == (b as int) * q + (a % b) as int,
        ;
        assert(is_bezout(y0, x0 - y0 * q, a, b));
    }
}

/// When `gcd(a, p) == 1`, `inv_mod(a, p)` really is a reduced inverse of `a`.
pub proof fn lemma_inv_mod_props(a: nat, p: nat)
    requires
        p >= 2,
        gcd_nat(a, p) == 1,
    ensures
        inv_mod(a, p) < p,
        mul_mod(a, inv_mod(a, p), p) == 1,
{
    let pi = p as int;
    lemma_bezout(a, p);
    let (x, y) = choose|x: int, y: int| #[trigger] is_bezout(x, y, a, p);
    let c = x % pi;
    lemma_mod_bound(x, pi);
    assert(x * a == 1 + (-y) * pi) by (nonlinear_arith)
        requires
            x * a + y * pi == 1,
    ;
    lemma_mod_multiple_shift(1int, -y, p);
    lemma_small_mod(1, p);
    lemma_mul_mod_noop_left(x, a as int, pi);
    assert((c * a) % pi == 1);
    assert((c as nat) * a == a * (c as nat)) by (nonlinear_arith);
    assert(mul_mod(a, c as nat, p) == 1);
    assert(exists|z: nat| z < p && mul_mod(a, z, p) == 1) by {
        assert((c as nat) < p && mul_mod(a, c as nat, p) == 1);
    };
}

impl FieldContext {
    /// Wraps a raw value as an element of this context's prime field.
    pub fn to_fp(&self, val: BigUint) -> (r: FpElement)
        requires
            self.wf(),
            self is Prime || self is Extension,
        ensures
            r.wf(),
            r.ctx.equiv(self),
            r.v() == big_nat(val) % self.prime_nat(),
    {
        FpElement::new(self, val)
    }
}

/// Relates a signed value to its canonical residue in [0, p).
proof fn lemma_canonical_residue(xv: int, p: nat, c: nat)
    requires
        p >= 2,
        xv >= 0 ==> c == (xv as nat) % p,
        xv < 0 ==> {
            let mm = ((-xv) as nat) % p;
            c == if mm == 0 {
                0nat
            } else {
                (p - mm) as nat
            }
        },
    ensures
        c < p,
        c as int == xv % (p as int),
{
    let pi = p as int;
    if xv >= 0 {
        vstd::arithmetic::div_mod::lemma_mod_division_less_than_divisor(xv, pi);
        assert(c == (xv as nat) % p);
        assert(c as int == xv % pi);
    } else {
        let m = (-xv) as nat;
        lemma_fundamental_div_mod(m as int, pi);
        let q = (m as int) / pi;
        let mm = m % p;
        assert(m as int == q * pi + mm);
        assert(xv == (-q) * pi - mm) by (nonlinear_arith)
            requires
                m as int == q * pi + mm,
                xv == -(m as int),
        ;
        if mm == 0 {
            assert(xv == 0 + (-q) * pi);
            lemma_mod_multiple_shift(0, -q, p);
            assert(xv % pi == 0int % pi);
        } else {
            assert(xv == (pi - mm) + (-q - 1) * pi) by (nonlinear_arith)
                requires
                    xv == (-q) * pi - mm,
            ;
            lemma_mod_multiple_shift(pi - mm, -q - 1, p);
            vstd::arithmetic::div_mod::lemma_mod_division_less_than_divisor(m as int, pi);
            lemma_small_mod((p - mm) as nat, p);
        }
    }
}

/// Law: adding the additive identity leaves a reduced element unchanged.
pub proof fn lemma_fp_add_zero(a: nat, p: nat)
    requires
        p >= 2,
        a < p,
    ensures
        add_mod(a, 0, p) == a,
{
    lemma_small_mod(a, p);
}

/// Law: multiplying by the multiplicative identity leaves a reduced element
/// unchanged.
pub proof fn lemma_fp_mul_one(a: nat, p: nat)
    requires
        p >= 2,
        a < p,
    ensures
        mul_mod(a, 1, p) == a,
{
    assert(a * 1 == a) by (nonlinear_arith);
    lemma_small_mod(a, p);
}

/// Law: an element plus its additive inverse is zero.
pub proof fn lemma_fp_add_neg(a: nat, p: nat)
    requires
        p >= 2,
        a < p,
    ensures
        add_mod(a, neg_mod(a, p), p) == 0,
{
    let pi = p as int;
    if a == 0 {
        lemma_mod_self_0(pi);
        lemma_small_mod(0, p);
    } else {
        lemma_small_mod((p - a) as nat, p);
        lemma_mod_self_0(pi);
    }
}

/// Law: field addition is associative, over reduced elements.
pub proof fn lemma_fp_add_assoc(a: nat, b: nat, c: nat, p: nat)
    requires
        p >= 2,
        a < p,
        b < p,
        c < p,
    ensures
        add_mod(add_mod(a, b, p), c, p) == add_mod(a, add_mod(b, c, p), p),
{
    let pi = p as int;
    lemma_small_mod(a, p);
    lemma_small_mod(c, p);
    lemma_add_mod_noop((a + b) as int, c as int, pi);
    lemma_add_mod_noop(a as int, (b + c) as int, pi);
}

/// Law: field addition is commutative.
pub proof fn lemma_fp_add_comm(a: nat, b: nat, p: nat)
    requires
        p >= 2,
    ensures
        add_mod(a, b, p) == add_mod(b, a, p),
{
}

/// Law: field multiplication is commutative.
pub proof fn lemma_fp_mul_comm(a: nat, b: nat, p: nat)
    requires
        p >= 2,
    ensures
        mul_mod(a, b, p) == mul_mod(b, a, p),
{
    assert(a * b == b * a) by (nonlinear_arith);
}

/// Law: field multiplication is associative.
pub proof fn lemma_fp_mul_assoc(a: nat, b: nat, c: nat, p: nat)
    requires
        p >= 2,
    ensures
        mul_mod(mul_mod(a, b, p), c, p) == mul_mod(a, mul_mod(b, c, p), p),
{
    let pi = p as int;
    lemma_mul_mod_noop_left((a * b) as int, c as int, pi);
    lemma_mul_mod_noop_right(a as int, (b * c) as int, pi);
    assert((a * b) * c == a * (b * c)) by (nonlinear_arith);
}

/// Law: multiplication distributes over addition.
pub proof fn lemma_fp_distrib(a: nat, b: nat, c: nat, p: nat)
    requires
        p >= 2,
    ensures
        mul_mod(a, add_mod(b, c, p), p) == add_mod(mul_mod(a, b, p), mul_mod(a, c, p), p),
{
    let pi = p as int;
    lemma_mul_mod_noop_right(a as int, (b + c) as int, pi);
    lemma_add_mod_noop((a * b) as int, (a * c) as int, pi);
    assert(a * (b + c) == a * b + a * c) by (nonlinear_arith);
}

/// Law: dividing and multiplying back returns the dividend, whenever the
/// divisor is a unit.  This is the round trip `(a / b) * b == a` stated over
/// the residues that `div` and `mul` return.
pub proof fn lemma_fp_div_mul_cancel(a: nat, b: nat, p: nat)
    requires
        p >= 2,
        a < p,
        b < p,
        gcd_nat(b, p) == 1,
    ensures
        mul_mod(mul_mod(a, inv_mod(b, p), p), b, p) == a,
{
    lemma_inv_mod_props(b, p);
    let i = inv_mod(b, p);
    lemma_fp_mul_assoc(a, i, b, p);
    lemma_fp_mul_comm(i, b, p);
    lemma_fp_mul_comm(b, i, p);
    assert(mul_mod(b, i, p) == 1);
    lemma_fp_mul_one(a, p);
    assert(mul_mod(a, mul_mod(i, b, p), p) == a);
}

/// Law: the constant-time ladder agrees with plain exponentiation whenever
/// the exponent is already reduced below the subgroup order, which is the
/// relation between the values `pow` and `pow_secure` return.
pub proof fn lemma_fp_pow_secure_consistent(a: nat, e: nat, order: nat, p: nat)
    requires
        p >= 2,
        0 < order,
        e < order,
    ensures
        pow_mod(a, e % order, p) == pow_mod(a, e, p),
{
    lemma_small_mod(e, order);
}

/// `(x + y*p) % p == x % p`.
proof fn lemma_mod_multiple_shift(x: int, y: int, p: nat)
    requires
        p > 0,
    ensures
        (x + y * (p as int)) % (p as int) == x % (p as int),
{
    lemma_mul_is_commutative(y, p as int);
    vstd::arithmetic::div_mod::lemma_mod_multiples_vanish(y, x, p as int);
}

} // verus!
