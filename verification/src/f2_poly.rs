//! The binary extension field GF(2^m): polynomials over GF(2) packed into a
//! big integer, one bit per coefficient, kept reduced modulo the context's
//! irreducible polynomial.  Addition is exclusive or, multiplication is the
//! carry-less product followed by reduction, and inversion is the extended
//! Euclidean algorithm in GF(2)[x], proved against a Bezout invariant.

use vstd::prelude::*;
use vstd::arithmetic::power2::pow2;
use vstd::arithmetic::div_mod::{lemma_small_mod, lemma_mod_division_less_than_divisor, lemma_div_denominator};
use num::BigUint;
use crate::bigint::{
    big_nat,
    big_clone,
    big_eq,
    big_is_zero,
    big_xor,
    big_shl,
    big_shr,
    big_rem,
    big_bits,
    big_bit,
    big_from_u64,
};
use crate::context::FieldContext;
use crate::gf2::{
    bitlen,
    nx,
    clmul,
    pmod,
    reduces_to,
    pdivides,
    lemma_pdivides_refl,
    lemma_pdivides_zero,
    lemma_pdivides_one,
    lemma_pdivides_combination,
    lemma_bit_at_zero,
    lemma_bitlen_pos,
    lemma_bitlen_bounds,
    lemma_bitlen_mono,
    lemma_bitlen_shl,
    lemma_nx_zero,
    lemma_nx_self,
    lemma_nx_comm,
    lemma_nx_assoc,
    lemma_nx_bitlen_le,
    lemma_nx_cancel_top,
    lemma_nx_shuffle,
    lemma_clmul_zero_right,
    lemma_clmul_one,
    lemma_clmul_one_right,
    lemma_clmul_comm,
    lemma_clmul_assoc,
    lemma_clmul_dist_left,
    lemma_clmul_dist_right,
    lemma_clmul_pow2_left,
    lemma_pmod_props,
    lemma_pmod_unique,
    lemma_pmod_small,
    lemma_pmod_shift,
    lemma_pmod_nx,
    lemma_pmod_mul_left,
    lemma_pmod_mul_right,
};
use crate::FieldError;

verus! {

/// The reduced product of two GF(2^m) values.
pub open spec fn f2_mul_spec(a: nat, b: nat, m: nat) -> nat {
    pmod(clmul(a, b), m)
}

/// The reduced inverse of `b` modulo `m`; meaningful whenever some reduced
/// `i` with `b * i == 1` exists, in which case it is unique.
pub open spec fn f2_inv_spec(b: nat, m: nat) -> nat {
    choose|i: nat| bitlen(i) < bitlen(m) && f2_mul_spec(b, i, m) == 1
}

/// The square-and-multiply ladder over GF(2^m), consuming the exponent from
/// its lowest bit up; both exponentiation entry points return exactly this.
pub open spec fn f2_ladder(base: nat, e: nat, acc: nat, m: nat) -> nat
    decreases e,
{
    if e == 0 {
        acc
    } else {
        f2_ladder(
            f2_mul_spec(base, base, m),
            e / 2,
            if e % 2 == 1 {
                f2_mul_spec(acc, base, m)
            } else {
                acc
            },
            m,
        )
    }
}


/// The `e`-th power in GF(2^m), as an iterated reduced product.
pub open spec fn f2_pow_spec(a: nat, e: nat, m: nat) -> nat
    decreases e,
{
    if e == 0 {
        1
    } else {
        f2_mul_spec(f2_pow_spec(a, (e - 1) as nat, m), a, m)
    }
}

/// Squaring the base halves the exponent.
proof fn lemma_f2_pow_double(a: nat, h: nat, m: nat)
    requires
        m >= 2,
    ensures
        f2_pow_spec(f2_mul_spec(a, a, m), h, m) == f2_pow_spec(a, 2 * h, m),
    decreases h,
{
    if h != 0 {
        lemma_f2_pow_double(a, (h - 1) as nat, m);
        lemma_f2_mul_assoc(f2_pow_spec(a, (2 * h - 2) as nat, m), a, a, m);
        lemma_pmod_small_mul(a, m);
        assert(f2_pow_spec(a, 2 * h, m) == f2_mul_spec(
            f2_pow_spec(a, (2 * h - 1) as nat, m),
            a,
            m,
        ));
        assert(f2_pow_spec(a, (2 * h - 1) as nat, m) == f2_mul_spec(
            f2_pow_spec(a, (2 * h - 2) as nat, m),
            a,
            m,
        ));
    }
}

/// Multiplying by an already-reduced product is multiplying twice.
proof fn lemma_pmod_small_mul(a: nat, m: nat)
    requires
        m >= 2,
    ensures
        forall|x: nat| #[trigger] f2_mul_spec(x, f2_mul_spec(a, a, m), m) == f2_mul_spec(
            f2_mul_spec(x, a, m),
            a,
            m,
        ),
{
    assert forall|x: nat| #[trigger] f2_mul_spec(x, f2_mul_spec(a, a, m), m) == f2_mul_spec(
        f2_mul_spec(x, a, m),
        a,
        m,
    ) by {
        lemma_f2_mul_assoc(x, a, a, m);
    }
}

/// Law: the square-and-multiply ladder computes the iterated power; with the
/// identity accumulator both exponentiation entry points therefore return
/// exactly `a^e` (respectively `a^(e mod order)`).
pub proof fn lemma_f2_ladder_is_pow(a: nat, e: nat, acc: nat, m: nat)
    requires
        m >= 2,
        bitlen(acc) < bitlen(m),
    ensures
        f2_ladder(a, e, acc, m) == f2_mul_spec(acc, f2_pow_spec(a, e, m), m),
    decreases e,
{
    lemma_bitlen_mono(2, m);
    if e == 0 {
        lemma_clmul_one_right(acc);
        lemma_pmod_small(acc, m);
    } else {
        let a2 = f2_mul_spec(a, a, m);
        let h = e / 2;
        let accn: nat = if e % 2 == 1 {
            f2_mul_spec(acc, a, m)
        } else {
            acc
        };
        lemma_pmod_props(clmul(acc, a), m);
        lemma_f2_ladder_is_pow(a2, h, accn, m);
        lemma_f2_pow_double(a, h, m);
        if e % 2 == 1 {
            // acc*a times a^(2h) regroups into acc times a^(2h+1).
            let p2h = f2_pow_spec(a, 2 * h, m);
            lemma_f2_mul_assoc(acc, a, p2h, m);
            lemma_f2_mul_comm(a, p2h, m);
            lemma_f2_mul_assoc(acc, p2h, a, m);
            assert(f2_pow_spec(a, e, m) == f2_mul_spec(p2h, a, m)) by {
                assert(e == 2 * h + 1);
            };
        } else {
            assert(e == 2 * h);
        }
    }
}


/// With the identity accumulator the ladder is exactly the power.
pub proof fn lemma_f2_ladder_equals_pow(a: nat, e: nat, m: nat)
    requires
        m >= 2,
    ensures
        f2_ladder(a, e, 1, m) == f2_pow_spec(a, e, m),
{
    lemma_bitlen_mono(2, m);
    assert(bitlen(1nat) == 1) by {
        assert(bitlen(0nat) == 0);
    };
    lemma_f2_ladder_is_pow(a, e, 1, m);
    let p = f2_pow_spec(a, e, m);
    lemma_clmul_one(p);
    if e == 0 {
        lemma_pmod_small(1, m);
    } else {
        lemma_pmod_props(clmul(f2_pow_spec(a, (e - 1) as nat, m), a), m);
        lemma_pmod_small(p, m);
    }
}

/// A reduced inverse in GF(2^m) is unique.
pub proof fn lemma_f2_inv_unique(b: nat, m: nat, i1: nat, i2: nat)
    requires
        m >= 2,
        bitlen(i1) < bitlen(m),
        bitlen(i2) < bitlen(m),
        f2_mul_spec(b, i1, m) == 1,
        f2_mul_spec(b, i2, m) == 1,
    ensures
        i1 == i2,
{
    lemma_pmod_small(i1, m);
    lemma_clmul_one_right(i1);
    lemma_pmod_mul_right(i1, clmul(b, i2), m);
    lemma_clmul_assoc(i1, b, i2);
    lemma_pmod_mul_left(clmul(i1, b), i2, m);
    lemma_clmul_comm(i1, b);
    lemma_clmul_one(i2);
    lemma_pmod_small(i2, m);
    assert(pmod(clmul(i1, 1), m) == i1);
    assert(pmod(clmul(i1, pmod(clmul(b, i2), m)), m) == pmod(clmul(i1, clmul(b, i2)), m));
    assert(pmod(clmul(clmul(i1, b), i2), m) == pmod(clmul(pmod(clmul(i1, b), m), i2), m));
    assert(pmod(clmul(pmod(clmul(b, i1), m), i2), m) == pmod(clmul(1, i2), m));
}

/// Law: multiplying a reduced value by the identity leaves it unchanged.
pub proof fn lemma_f2_mul_one(a: nat, m: nat)
    requires
        m >= 2,
        bitlen(a) < bitlen(m),
    ensures
        f2_mul_spec(a, 1, m) == a,
{
    lemma_clmul_one_right(a);
    lemma_pmod_small(a, m);
}

/// Law: field multiplication in GF(2^m) is commutative.
pub proof fn lemma_f2_mul_comm(a: nat, b: nat, m: nat)
    ensures
        f2_mul_spec(a, b, m) == f2_mul_spec(b, a, m),
{
    lemma_clmul_comm(a, b);
}

/// Law: field multiplication in GF(2^m) is associative.
pub proof fn lemma_f2_mul_assoc(a: nat, b: nat, c: nat, m: nat)
    requires
        m >= 2,
    ensures
        f2_mul_spec(f2_mul_spec(a, b, m), c, m) == f2_mul_spec(a, f2_mul_spec(b, c, m), m),
{
    lemma_pmod_mul_left(clmul(a, b), c, m);
    lemma_pmod_mul_right(a, clmul(b, c), m);
    lemma_clmul_assoc(a, b, c);
}

/// Law: multiplication distributes over addition in GF(2^m).
pub proof fn lemma_f2_distrib(a: nat, b: nat, c: nat, m: nat)
    requires
        m >= 2,
    ensures
        f2_mul_spec(a, nx(b, c), m) == nx(f2_mul_spec(a, b, m), f2_mul_spec(a, c, m)),
{
    lemma_clmul_dist_right(a, b, c);
    lemma_pmod_nx(clmul(a, b), clmul(a, c), m);
}

/// Law: dividing by an invertible value and multiplying back returns the
/// dividend.  This is the round trip `(a / b) * b == a` over the values that
/// `div` and `mul` return.
pub proof fn lemma_f2_div_mul_cancel(a: nat, b: nat, m: nat)
    requires
        m >= 2,
        bitlen(a) < bitlen(m),
        exists|i: nat| bitlen(i) < bitlen(m) && #[trigger] f2_mul_spec(b, i, m) == 1,
    ensures
        f2_mul_spec(f2_mul_spec(a, f2_inv_spec(b, m), m), b, m) == a,
{
    let i = f2_inv_spec(b, m);
    assert(bitlen(i) < bitlen(m) && f2_mul_spec(b, i, m) == 1);
    lemma_pmod_mul_left(clmul(a, i), b, m);
    lemma_clmul_assoc(a, i, b);
    lemma_pmod_mul_right(a, clmul(i, b), m);
    lemma_clmul_comm(i, b);
    lemma_f2_mul_one(a, m);
}

/// Law: the constant-time ladder agrees with plain exponentiation whenever
/// the exponent is already reduced below the subgroup order; this is the
/// relation between the values `pow` and `pow_secure` return.
pub proof fn lemma_f2_pow_secure_consistent(a: nat, e: nat, order: nat, m: nat)
    requires
        0 < order,
        e < order,
    ensures
        f2_ladder(a, e % order, 1, m) == f2_ladder(a, e, 1, m),
{
    lemma_small_mod(e, order);
}

/// An element of GF(2^m): bit `i` of `coeffs` is the coefficient of `x^i`.
#[derive(Debug)]
pub struct F2PolynomialElement {
    pub ctx: FieldContext,
    pub coeffs: BigUint,
}

impl F2PolynomialElement {
    /// The packed coefficients this element holds.
    pub open spec fn v(&self) -> nat {
        big_nat(self.coeffs)
    }

    /// The irreducible modulus polynomial, as a natural number.
    pub open spec fn m(&self) -> nat {
        self.ctx.bin_irr()
    }

    pub open spec fn wf(&self) -> bool {
        &&& self.ctx.wf()
        &&& self.ctx is Binary
        &&& bitlen(self.v()) < bitlen(self.m())
    }

    pub open spec fn same_field(&self, other: &F2PolynomialElement) -> bool {
        self.ctx.equiv(&other.ctx)
    }

    /// Builds the element with the given coefficients, reduced modulo the
    /// context's irreducible polynomial.
    pub fn new(ctx: &FieldContext, coeffs: BigUint) -> (r: F2PolynomialElement)
        requires
            ctx.wf(),
            ctx is Binary,
        ensures
            r.wf(),
            r.ctx.equiv(ctx),
            r.v() == pmod(big_nat(coeffs), ctx.bin_irr()),
    {
        let reduced = Self::poly_mod(ctx, &coeffs);
        F2PolynomialElement { ctx: ctx.clone(), coeffs: reduced }
    }

    /// The additive identity.
    pub fn zero(ctx: &FieldContext) -> (r: F2PolynomialElement)
        requires
            ctx.wf(),
            ctx is Binary,
        ensures
            r.wf(),
            r.ctx.equiv(ctx),
            r.v() == 0,
    {
        proof {
            lemma_bitlen_pos(0);
            lemma_bitlen_pos(ctx.bin_irr());
            lemma_bitlen_mono(2, ctx.bin_irr());
        }
        F2PolynomialElement { ctx: ctx.clone(), coeffs: big_from_u64(0) }
    }

    /// The multiplicative identity.
    pub fn one(ctx: &FieldContext) -> (r: F2PolynomialElement)
        requires
            ctx.wf(),
            ctx is Binary,
        ensures
            r.wf(),
            r.ctx.equiv(ctx),
            r.v() == 1,
    {
        proof {
            lemma_bitlen_mono(2, ctx.bin_irr());
            assert(bitlen(2) == 2) by {
                assert(bitlen(0nat) == 0);
                assert(bitlen(1nat) == 1);
            };
            assert(bitlen(1nat) == 1) by {
                assert(bitlen(0nat) == 0);
            };
        }
        F2PolynomialElement { ctx: ctx.clone(), coeffs: big_from_u64(1) }
    }

    pub fn is_zero(&self) -> (r: bool)
        ensures
            r <==> self.v() == 0,
    {
        big_is_zero(&self.coeffs)
    }

    /// Coefficient-wise sum: bitwise exclusive or of the packed coefficients.
    pub fn add(&self, other: &F2PolynomialElement) -> (r: F2PolynomialElement)
        requires
            self.wf(),
            other.wf(),
            self.same_field(other),
        ensures
            r.wf(),
            r.ctx.equiv(&self.ctx),
            r.v() == nx(self.v(), other.v()),
    {
        let summed = big_xor(&self.coeffs, &other.coeffs);
        let reduced = Self::poly_mod(&self.ctx, &summed);
        proof {
            lemma_nx_bitlen_le(self.v(), other.v());
            lemma_pmod_small(nx(self.v(), other.v()), self.m());
        }
        F2PolynomialElement { ctx: self.ctx.clone(), coeffs: reduced }
    }

    /// Subtraction coincides with addition in characteristic 2.
    pub fn sub(&self, other: &F2PolynomialElement) -> (r: F2PolynomialElement)
        requires
            self.wf(),
            other.wf(),
            self.same_field(other),
        ensures
            r.wf(),
            r.ctx.equiv(&self.ctx),
            r.v() == nx(self.v(), other.v()),
    {
        self.add(other)
    }

    /// Negation is the identity in characteristic 2.
    pub fn neg(&self) -> (r: F2PolynomialElement)
        requires
            self.wf(),
        ensures
            r.wf(),
            r.ctx.equiv(&self.ctx),
            r.v() == self.v(),
    {
        F2PolynomialElement { ctx: self.ctx.clone(), coeffs: big_clone(&self.coeffs) }
    }

    /// Field multiplication: the carry-less product reduced modulo the
    /// irreducible polynomial.
    pub fn mul(&self, other: &F2PolynomialElement) -> (r: F2PolynomialElement)
        requires
            self.wf(),
            other.wf(),
            self.same_field(other),
        ensures
            r.wf(),
            r.ctx.equiv(&self.ctx),
            r.v() == f2_mul_spec(self.v(), other.v(), self.m()),
    {
        let product = Self::poly_mul(&self.coeffs, &other.coeffs);
        let reduced = Self::poly_mod(&self.ctx, &product);
        F2PolynomialElement { ctx: self.ctx.clone(), coeffs: reduced }
    }

    /// Carry-less polynomial multiplication: for every set bit of `a`, xor a
    /// correspondingly shifted copy of `b` into the result.
    pub fn poly_mul(a: &BigUint, b: &BigUint) -> (r: BigUint)
        ensures
            big_nat(r) == clmul(big_nat(*a), big_nat(*b)),
    {
        let ghost av = big_nat(*a);
        let ghost bv = big_nat(*b);
        let abits = big_bits(a);
        let mut result = big_from_u64(0);
        let mut shifted = big_clone(b);
        let mut i: u64 = 0;
        proof {
            vstd::arithmetic::power2::lemma2_to64();
            lemma_clmul_zero_right(0);
            assert(av % pow2(0) == 0);
            assert(clmul(0, bv) == 0);
        }
        while i < abits
            invariant
                big_nat(*a) == av,
                i <= abits,
                abits as nat == bitlen(av),
                big_nat(result) == clmul(av % pow2(i as nat), bv),
                big_nat(shifted) == pow2(i as nat) * bv,
            decreases abits - i,
        {
            let ghost s = i as nat;
            let ghost low = av % pow2(s);
            if big_bit(a, i) {
                result = big_xor(&result, &shifted);
            }
            let next = big_shl(&shifted, 1);
            shifted = next;
            i = i + 1;
            proof {
                vstd::arithmetic::power2::lemma2_to64();
                crate::fp::lemma_mod_pow2_split(av, s);
                vstd::arithmetic::power2::lemma_pow2_pos(s);
                lemma_mod_division_less_than_divisor(av as int, pow2(s) as int);
                if (av / pow2(s)) % 2 == 1 {
                    // The next exponent slice gains the bit at position s.
                    crate::gf2::lemma_nx_low_high(low, s, 1);
                    assert(av % pow2(s + 1) == nx(low, pow2(s) * 1));
                    lemma_clmul_dist_left(low, pow2(s), bv);
                    lemma_clmul_pow2_left(s, bv);
                    assert(pow2(s) * 1 == pow2(s)) by (nonlinear_arith);
                } else {
                    assert(av % pow2(s + 1) == av % pow2(s));
                }
                vstd::arithmetic::power2::lemma_pow2_unfold(s + 1);
                assert(2 * (pow2(s) * bv) == pow2(s + 1) * bv) by (nonlinear_arith)
                    requires
                        pow2(s + 1) == 2 * pow2(s),
                ;
            }
        }
        proof {
            lemma_bitlen_bounds(av);
            lemma_small_mod(av, pow2(abits as nat));
        }
        result
    }

    /// Reduction modulo the context's irreducible polynomial: repeatedly xor
    /// a shifted copy of the modulus onto the leading coefficient until the
    /// degree drops below the modulus degree.
    fn poly_mod(ctx: &FieldContext, a: &BigUint) -> (r: BigUint)
        requires
            ctx.wf(),
            ctx is Binary,
        ensures
            big_nat(r) == pmod(big_nat(*a), ctx.bin_irr()),
            bitlen(big_nat(r)) < bitlen(ctx.bin_irr()),
    {
        let ghost av = big_nat(*a);
        let ghost mv = ctx.bin_irr();
        let divisor = ctx.bin_irr_ref();
        let dbits = big_bits(divisor);
        let mut remainder = big_clone(a);
        let ghost mut q: nat = 0;
        proof {
            lemma_nx_zero(av);
            assert(clmul(0, mv) == 0);
        }
        while big_bits(&remainder) >= dbits
            invariant
                ctx.wf(),
                ctx is Binary,
                mv == ctx.bin_irr(),
                mv >= 2,
                big_nat(*divisor) == mv,
                dbits as nat == bitlen(mv),
                av == nx(clmul(q, mv), big_nat(remainder)),
            decreases bitlen(big_nat(remainder)),
        {
            let rbits = big_bits(&remainder);
            let shift = rbits - dbits;
            let shifted = big_shl(divisor, shift);
            let ghost rv = big_nat(remainder);
            let ghost s = shift as nat;
            proof {
                assert(mv * pow2(s) == pow2(s) * mv) by (nonlinear_arith);
                lemma_bitlen_pos(mv);
                lemma_bitlen_shl(mv, s);
                assert(bitlen(pow2(s) * mv) == bitlen(rv));
                lemma_bitlen_pos(rv);
                assert(rv > 0);
                lemma_nx_cancel_top(rv, pow2(s) * mv);
            }
            let next = big_xor(&remainder, &shifted);
            remainder = next;
            proof {
                // Fold the shifted modulus into the running quotient.
                let qn = nx(q, pow2(s));
                lemma_clmul_pow2_left(s, mv);
                lemma_clmul_dist_left(q, pow2(s), mv);
                lemma_nx_comm(pow2(s) * mv, rv);
                lemma_nx_assoc(clmul(q, mv), pow2(s) * mv, big_nat(remainder));
                lemma_nx_assoc(clmul(q, mv), rv, pow2(s) * mv);
                lemma_nx_comm(rv, pow2(s) * mv);
                lemma_nx_assoc(rv, pow2(s) * mv, pow2(s) * mv);
                lemma_nx_self(pow2(s) * mv);
                lemma_nx_zero(rv);
                assert(nx(rv, nx(pow2(s) * mv, pow2(s) * mv)) == rv);
                assert(nx(big_nat(remainder), pow2(s) * mv) == rv);
                lemma_nx_shuffle(clmul(q, mv), pow2(s) * mv, rv, pow2(s) * mv);
                lemma_nx_zero(nx(clmul(q, mv), rv));
                assert(av == nx(clmul(qn, mv), big_nat(remainder)));
                q = qn;
            }
        }
        proof {
            assert(reduces_to(av, mv, q, big_nat(remainder)));
            lemma_pmod_props(av, mv);
            let q2 = choose|q2: nat| #[trigger] reduces_to(av, mv, q2, pmod(av, mv));
            lemma_pmod_unique(av, mv, q, big_nat(remainder), q2, pmod(av, mv));
        }
        remainder
    }

    /// GF(2)-polynomial long division with quotient: returns `(q, r)` with
    /// `a == q*b + r` (carry-less product, xor sum) and `deg r < deg b`; a
    /// degree-zero divisor divides exactly.
    pub fn poly_div(a: &BigUint, b: &BigUint) -> (r: (BigUint, BigUint))
        requires
            big_nat(*b) > 0,
        ensures
            big_nat(*a) == nx(clmul(big_nat(r.0), big_nat(*b)), big_nat(r.1)),
            bitlen(big_nat(r.1)) < bitlen(big_nat(*b)),
    {
        let ghost av = big_nat(*a);
        let ghost bv = big_nat(*b);
        let dbits = big_bits(b);
        let mut quotient = big_from_u64(0);
        let mut remainder = big_clone(a);
        proof {
            lemma_nx_zero(av);
            assert(clmul(0, bv) == 0);
            lemma_bitlen_pos(bv);
        }
        if dbits == 1 {
            // The divisor is the constant polynomial 1.
            let q = big_clone(a);
            let z = big_from_u64(0);
            proof {
                lemma_clmul_one_right(av);
                lemma_nx_zero(clmul(av, bv));
                assert(bv == 1) by {
                    lemma_bitlen_bounds(bv);
                    vstd::arithmetic::power2::lemma2_to64();
                };
                lemma_bitlen_pos(0);
            }
            return (q, z);
        }
        while big_bits(&remainder) >= dbits
            invariant
                big_nat(*b) == bv,
                bitlen(bv) >= 2,
                bv > 0,
                dbits as nat == bitlen(bv),
                av == nx(clmul(big_nat(quotient), bv), big_nat(remainder)),
            decreases bitlen(big_nat(remainder)),
        {
            let rbits = big_bits(&remainder);
            let shift = rbits - dbits;
            let shifted = big_shl(b, shift);
            let one = big_from_u64(1);
            let qbit = big_shl(&one, shift);
            let ghost rv = big_nat(remainder);
            let ghost qv = big_nat(quotient);
            let ghost s = shift as nat;
            proof {
                assert(bv * pow2(s) == pow2(s) * bv) by (nonlinear_arith);
                lemma_bitlen_shl(bv, s);
                lemma_bitlen_pos(rv);
                lemma_nx_cancel_top(rv, pow2(s) * bv);
                assert(pow2(s) * 1 == pow2(s)) by (nonlinear_arith);
            }
            let next_r = big_xor(&remainder, &shifted);
            let next_q = big_xor(&quotient, &qbit);
            remainder = next_r;
            quotient = next_q;
            proof {
                let qn = nx(qv, pow2(s));
                lemma_clmul_pow2_left(s, bv);
                lemma_clmul_dist_left(qv, pow2(s), bv);
                lemma_nx_shuffle(clmul(qv, bv), rv, pow2(s) * bv, pow2(s) * bv);
                lemma_nx_self(pow2(s) * bv);
                lemma_nx_zero(nx(clmul(qv, bv), rv));
                lemma_nx_assoc(clmul(qv, bv), pow2(s) * bv, big_nat(remainder));
                lemma_nx_assoc(clmul(qv, bv), rv, pow2(s) * bv);
                assert(big_nat(quotient) == qn);
                assert(nx(rv, pow2(s) * bv) == big_nat(remainder));
                // av == nx(clmul(qv, bv), rv)
                //    == nx(nx(clmul(qv, bv), 2^s b), nx(rv, 2^s b)).
                lemma_nx_shuffle(clmul(qv, bv), rv, pow2(s) * bv, pow2(s) * bv);
                assert(av == nx(nx(clmul(qv, bv), pow2(s) * bv), big_nat(remainder))) by {
                    lemma_nx_assoc(nx(clmul(qv, bv), pow2(s) * bv), rv, pow2(s) * bv);
                    lemma_nx_comm(rv, pow2(s) * bv);
                    lemma_nx_assoc(nx(clmul(qv, bv), pow2(s) * bv), pow2(s) * bv, rv);
                    lemma_nx_assoc(clmul(qv, bv), pow2(s) * bv, pow2(s) * bv);
                    lemma_nx_self(pow2(s) * bv);
                    lemma_nx_zero(clmul(qv, bv));
                };
                assert(av == nx(clmul(qn, bv), big_nat(remainder)));
            }
        }
        (quotient, remainder)
    }

    /// Extended Euclidean algorithm in GF(2)[x]: returns `(g, u, v)` with
    /// `u*a + v*b == g` in the carry-less arithmetic of GF(2) polynomials.
    pub fn poly_extended_gcd(a: &BigUint, b: &BigUint) -> (r: (BigUint, BigUint, BigUint))
        ensures
            big_nat(r.0) == nx(
                clmul(big_nat(r.1), big_nat(*a)),
                clmul(big_nat(r.2), big_nat(*b)),
            ),
            pdivides(big_nat(r.0), big_nat(*a)),
            pdivides(big_nat(r.0), big_nat(*b)),
    {
        let ghost av = big_nat(*a);
        let ghost bv = big_nat(*b);
        if big_is_zero(b) {
            let g = big_clone(a);
            let u = big_from_u64(1);
            let v = big_from_u64(0);
            proof {
                lemma_clmul_one(av);
                lemma_nx_zero(av);
                assert(clmul(0, bv) == 0);
                lemma_pdivides_refl(av);
                lemma_pdivides_zero(av);
            }
            return (g, u, v);
        }
        let mut r0 = big_clone(a);
        let mut r1 = big_clone(b);
        let mut u0 = big_from_u64(1);
        let mut u1 = big_from_u64(0);
        let mut v0 = big_from_u64(0);
        let mut v1 = big_from_u64(1);
        // The reverse coefficients express the inputs in terms of the
        // current remainder pair, so the final remainder divides both.
        let ghost mut ax0: nat = 1;
        let ghost mut ay0: nat = 0;
        let ghost mut bx0: nat = 0;
        let ghost mut by0: nat = 1;
        proof {
            lemma_clmul_one(av);
            lemma_clmul_one(bv);
            lemma_nx_zero(av);
            lemma_nx_zero(bv);
            assert(clmul(0, bv) == 0);
            assert(clmul(0, av) == 0);
        }
        while !big_is_zero(&r1)
            invariant
                big_nat(*a) == av,
                big_nat(*b) == bv,
                big_nat(r0) == nx(clmul(big_nat(u0), av), clmul(big_nat(v0), bv)),
                big_nat(r1) == nx(clmul(big_nat(u1), av), clmul(big_nat(v1), bv)),
                av == nx(clmul(ax0, big_nat(r0)), clmul(ay0, big_nat(r1))),
                bv == nx(clmul(bx0, big_nat(r0)), clmul(by0, big_nat(r1))),
            decreases bitlen(big_nat(r1)),
        {
            let (quot, rem) = Self::poly_div(&r0, &r1);
            let qu = Self::poly_mul(&quot, &u1);
            let qv = Self::poly_mul(&quot, &v1);
            let u2 = big_xor(&u0, &qu);
            let v2 = big_xor(&v0, &qv);
            proof {
                lemma_bezout_step(
                    av,
                    bv,
                    big_nat(r0),
                    big_nat(u0),
                    big_nat(v0),
                    big_nat(r1),
                    big_nat(u1),
                    big_nat(v1),
                    big_nat(quot),
                    big_nat(rem),
                );
                lemma_bitlen_pos(big_nat(r1));
                lemma_unbezout_step(
                    av,
                    big_nat(r0),
                    big_nat(r1),
                    big_nat(quot),
                    big_nat(rem),
                    ax0,
                    ay0,
                );
                lemma_unbezout_step(
                    bv,
                    big_nat(r0),
                    big_nat(r1),
                    big_nat(quot),
                    big_nat(rem),
                    bx0,
                    by0,
                );
                let nax0 = nx(ay0, clmul(ax0, big_nat(quot)));
                let nbx0 = nx(by0, clmul(bx0, big_nat(quot)));
                ay0 = ax0;
                ax0 = nax0;
                by0 = bx0;
                bx0 = nbx0;
            }
            r0 = r1;
            r1 = rem;
            u0 = u1;
            u1 = u2;
            v0 = v1;
            v1 = v2;
        }
        proof {
            let gv = big_nat(r0);
            lemma_clmul_zero_right(ay0);
            lemma_clmul_zero_right(by0);
            lemma_nx_zero(clmul(ax0, gv));
            lemma_nx_zero(clmul(bx0, gv));
            assert(clmul(ax0, gv) == av);
            assert(clmul(bx0, gv) == bv);
        }
        (r0, u0, v0)
    }

    /// Multiplicative inverse by the extended Euclidean algorithm in
    /// GF(2)[x]: succeeds exactly when a reduced inverse exists (equivalently,
    /// when the gcd with the irreducible polynomial is the unit), in which
    /// case the reduced Bezout coefficient is the unique inverse; a non-unit
    /// is reported as `NonInvertible`.
    pub fn inverse(&self) -> (r: Result<F2PolynomialElement, FieldError>)
        requires
            self.wf(),
        ensures
            r is Ok <==> exists|i: nat|
                bitlen(i) < bitlen(self.m()) && #[trigger] f2_mul_spec(self.v(), i, self.m())
                    == 1,
            r is Ok ==> {
                &&& r->Ok_0.wf()
                &&& r->Ok_0.ctx.equiv(&self.ctx)
                &&& f2_mul_spec(self.v(), r->Ok_0.v(), self.m()) == 1
                &&& r->Ok_0.v() == f2_inv_spec(self.v(), self.m())
            },
            self.v() == 0 ==> r is Err,
            r is Err ==> r->Err_0 == FieldError::NonInvertible,
    {
        let ghost av = self.v();
        let ghost mv = self.m();
        let irreducible = self.ctx.bin_irr_ref();
        let (g, u, _v) = Self::poly_extended_gcd(&self.coeffs, irreducible);
        let one = big_from_u64(1);
        proof {
            // Zero has no inverse: the Bezout combination collapses to a
            // multiple of the modulus, whose degree rules out 1.
            if av == 0 && big_nat(g) == 1 {
                lemma_clmul_zero_right(big_nat(u));
                lemma_nx_zero(clmul(big_nat(_v), mv));
                assert(clmul(big_nat(_v), mv) == 1);
                if big_nat(_v) == 0 {
                    assert(clmul(0, mv) == 0);
                } else {
                    crate::gf2::lemma_clmul_bitlen(big_nat(_v), mv);
                    lemma_bitlen_pos(big_nat(_v));
                    lemma_bitlen_mono(2, mv);
                    assert(bitlen(1nat) == 1) by {
                        assert(bitlen(0nat) == 0);
                    };
                }
                assert(false);
            }
        }
        if !big_eq(&g, &one) {
            proof {
                // No inverse can exist: the gcd divides this value and the
                // modulus, hence every Bezout combination of them, and an
                // inverse equation is exactly such a combination equal to 1.
                let gv = big_nat(g);
                if exists|i: nat| bitlen(i) < bitlen(mv) && #[trigger] f2_mul_spec(av, i, mv)
                    == 1 {
                    let i = choose|i: nat|
                        bitlen(i) < bitlen(mv) && #[trigger] f2_mul_spec(av, i, mv) == 1;
                    lemma_bitlen_mono(2, mv);
                    lemma_pmod_props(clmul(av, i), mv);
                    let q = choose|q: nat|
                        #[trigger] reduces_to(clmul(av, i), mv, q, pmod(clmul(av, i), mv));
                    let x = clmul(av, i);
                    let qm = clmul(q, mv);
                    assert(x == nx(qm, 1));
                    // Rearrange x == qm (+) 1 into 1 == x (+) qm.
                    lemma_nx_comm(qm, 1);
                    lemma_nx_assoc(1, qm, qm);
                    lemma_nx_self(qm);
                    lemma_nx_zero(1);
                    assert(nx(x, qm) == 1);
                    lemma_pdivides_combination(gv, i, av, q, mv);
                    lemma_clmul_comm(i, av);
                    assert(pdivides(gv, 1));
                    lemma_pdivides_one(gv);
                    assert(false);
                }
            }
            return Err(FieldError::NonInvertible);
        }
        let reduced = Self::poly_mod(&self.ctx, &u);
        proof {
            let uv = big_nat(u);
            let vv = big_nat(_v);
            // Bezout: 1 == u*a (+) v*m, so u*a == 1 (+) v*m and reduces to 1.
            lemma_nx_comm(clmul(uv, av), clmul(vv, mv));
            lemma_nx_assoc(clmul(vv, mv), clmul(uv, av), clmul(uv, av));
            lemma_nx_self(clmul(uv, av));
            lemma_nx_zero(clmul(vv, mv));
            lemma_nx_comm(nx(clmul(vv, mv), clmul(uv, av)), clmul(uv, av));
            assert(clmul(uv, av) == nx(clmul(vv, mv), 1)) by {
                lemma_nx_assoc(clmul(uv, av), clmul(vv, mv), clmul(vv, mv));
                lemma_nx_self(clmul(vv, mv));
                lemma_nx_zero(clmul(uv, av));
                lemma_nx_comm(clmul(uv, av), clmul(vv, mv));
                lemma_nx_assoc(clmul(vv, mv), clmul(uv, av), clmul(vv, mv));
                lemma_nx_comm(nx(clmul(uv, av), clmul(vv, mv)), clmul(vv, mv));
                lemma_nx_comm(clmul(vv, mv), nx(clmul(uv, av), clmul(vv, mv)));
            };
            lemma_pmod_shift(1, vv, mv);
            assert(bitlen(1nat) < bitlen(mv)) by {
                assert(bitlen(1nat) == 1) by {
                    assert(bitlen(0nat) == 0);
                };
                lemma_bitlen_mono(2, mv);
            };
            lemma_pmod_small(1, mv);
            assert(pmod(clmul(uv, av), mv) == 1);
            // The reduced coefficient still multiplies to 1.
            lemma_pmod_mul_left(uv, av, mv);
            lemma_clmul_comm(pmod(uv, mv), av);
            lemma_clmul_comm(uv, av);
            assert(f2_mul_spec(av, pmod(uv, mv), mv) == 1);
            // And it is the unique reduced inverse.
            lemma_pmod_props(uv, mv);
            assert(exists|i: nat| bitlen(i) < bitlen(mv) && #[trigger] f2_mul_spec(av, i, mv)
                == 1) by {
                assert(bitlen(pmod(uv, mv)) < bitlen(mv) && f2_mul_spec(av, pmod(uv, mv), mv)
                    == 1);
            };
            let w = f2_inv_spec(av, mv);
            assert(bitlen(w) < bitlen(mv) && f2_mul_spec(av, w, mv) == 1);
            lemma_f2_inv_unique(av, mv, pmod(uv, mv), w);
        }
        Ok(F2PolynomialElement { ctx: self.ctx.clone(), coeffs: reduced })
    }

    /// Field division: multiplication by the inverse of `other`.  Succeeds
    /// exactly when `other` has an inverse.
    pub fn div(&self, other: &F2PolynomialElement) -> (r: Result<F2PolynomialElement, FieldError>)
        requires
            self.wf(),
            other.wf(),
            self.same_field(other),
        ensures
            r is Ok <==> exists|i: nat|
                bitlen(i) < bitlen(self.m()) && #[trigger] f2_mul_spec(other.v(), i, self.m())
                    == 1,
            r is Ok ==> {
                &&& r->Ok_0.wf()
                &&& r->Ok_0.ctx.equiv(&self.ctx)
                &&& r->Ok_0.v() == f2_mul_spec(self.v(), f2_inv_spec(other.v(), self.m()), self.m())
            },
            r is Err ==> r->Err_0 == FieldError::NonInvertible,
    {
        match other.inverse() {
            Ok(inv) => Ok(self.mul(&inv)),
            Err(e) => Err(e),
        }
    }

    /// Square-and-multiply exponentiation over the exponent's bits; not
    /// constant-time.
    pub fn pow(&self, exp: &BigUint) -> (r: F2PolynomialElement)
        requires
            self.wf(),
        ensures
            r.wf(),
            r.ctx.equiv(&self.ctx),
            r.v() == f2_ladder(self.v(), big_nat(*exp), 1, self.m()),
            r.v() == f2_pow_spec(self.v(), big_nat(*exp), self.m()),
    {
        proof {
            lemma_f2_ladder_equals_pow(self.v(), big_nat(*exp), self.m());
        }
        let ghost mv = self.m();
        let mut base = self.neg();
        let mut result = Self::one(&self.ctx);
        let mut e_val = big_clone(exp);
        while !big_is_zero(&e_val)
            invariant
                base.wf(),
                result.wf(),
                base.ctx.equiv(&self.ctx),
                result.ctx.equiv(&self.ctx),
                base.m() == mv,
                result.m() == mv,
                f2_ladder(self.v(), big_nat(*exp), 1, mv) == f2_ladder(
                    base.v(),
                    big_nat(e_val),
                    result.v(),
                    mv,
                ),
            decreases big_nat(e_val),
        {
            let ghost ev = big_nat(e_val);
            proof {
                lemma_bit_at_zero(ev);
            }
            if big_bit(&e_val, 0) {
                result = result.mul(&base);
            }
            base = base.mul(&base);
            e_val = big_shr(&e_val, 1);
            proof {
                vstd::arithmetic::power2::lemma2_to64();
                assert(big_nat(e_val) == ev / 2);
            }
        }
        result
    }

    /// Constant-time-style exponentiation: the exponent is reduced modulo
    /// `subgroup_order` and the ladder runs for exactly the bit length of
    /// `subgroup_order`, multiplying into a discarded accumulator on zero
    /// bits.
    pub fn pow_secure(&self, exp: &BigUint, subgroup_order: &BigUint) -> (r: F2PolynomialElement)
        requires
            self.wf(),
            big_nat(*subgroup_order) > 0,
        ensures
            r.wf(),
            r.ctx.equiv(&self.ctx),
            r.v() == f2_ladder(
                self.v(),
                big_nat(*exp) % big_nat(*subgroup_order),
                1,
                self.m(),
            ),
            r.v() == f2_pow_spec(
                self.v(),
                big_nat(*exp) % big_nat(*subgroup_order),
                self.m(),
            ),
    {
        proof {
            lemma_f2_ladder_equals_pow(
                self.v(),
                big_nat(*exp) % big_nat(*subgroup_order),
                self.m(),
            );
        }
        let ghost mv = self.m();
        let e_red = big_rem(exp, subgroup_order);
        let ghost er = big_nat(e_red);
        let nbits = big_bits(subgroup_order);
        let mut base = self.neg();
        let mut result = Self::one(&self.ctx);
        let mut dummy = Self::one(&self.ctx);
        let mut shift: u64 = 0;
        proof {
            vstd::arithmetic::power2::lemma2_to64();
            assert(er / pow2(0) == er);
        }
        while shift < nbits
            invariant
                base.wf(),
                result.wf(),
                dummy.wf(),
                base.ctx.equiv(&self.ctx),
                result.ctx.equiv(&self.ctx),
                dummy.ctx.equiv(&self.ctx),
                base.m() == mv,
                result.m() == mv,
                dummy.m() == mv,
                big_nat(e_red) == er,
                shift <= nbits,
                f2_ladder(self.v(), er, 1, mv) == f2_ladder(
                    base.v(),
                    er / pow2(shift as nat),
                    result.v(),
                    mv,
                ),
            decreases nbits - shift,
        {
            let ghost s = shift as nat;
            let ghost erem = er / pow2(s);
            if big_bit(&e_red, shift) {
                result = result.mul(&base);
            } else {
                dummy = dummy.mul(&base);
            }
            base = base.mul(&base);
            shift = shift + 1;
            proof {
                vstd::arithmetic::power2::lemma_pow2_pos(s);
                vstd::arithmetic::power2::lemma_pow2_unfold(s + 1);
                lemma_div_denominator(er as int, pow2(s) as int, 2);
                assert(erem / 2 == er / pow2(s + 1));
            }
        }
        proof {
            lemma_mod_division_less_than_divisor(big_nat(*exp) as int, big_nat(
                *subgroup_order,
            ) as int);
            lemma_bitlen_mono(er, big_nat(*subgroup_order));
            lemma_bitlen_bounds(er);
            if crate::gf2::bitlen(er) < nbits as nat {
                vstd::arithmetic::power2::lemma_pow2_strictly_increases(bitlen(er), nbits as nat);
            }
            vstd::arithmetic::div_mod::lemma_basic_div(er as int, pow2(nbits as nat) as int);
        }
        result
    }
}

impl Clone for F2PolynomialElement {
    /// The copy holds the same coefficients of the same field.
    fn clone(&self) -> (r: Self)
        ensures
            r.v() == self.v(),
            r.m() == self.m(),
            r.ctx.equiv(&self.ctx),
            r.wf() <==> self.wf(),
    {
        F2PolynomialElement { ctx: self.ctx.clone(), coeffs: big_clone(&self.coeffs) }
    }
}

/// Any common divisor of `a` and `b` divides a Bezout combination of them;
/// with the common-divisor clauses of the Euclidean pass, this makes the
/// returned value the greatest common divisor.
pub proof fn lemma_f2_gcd_greatest(d: nat, u: nat, a: nat, v: nat, b: nat, g: nat)
    requires
        g == nx(clmul(u, a), clmul(v, b)),
        pdivides(d, a),
        pdivides(d, b),
    ensures
        pdivides(d, g),
{
    lemma_pdivides_combination(d, u, a, v, b);
}

/// One simultaneous update of the reverse Euclidean coefficients keeps an
/// input expressed in terms of the remainder pair.
proof fn lemma_unbezout_step(t: nat, r0: nat, r1: nat, q: nat, rem: nat, x: nat, y: nat)
    requires
        t == nx(clmul(x, r0), clmul(y, r1)),
        r0 == nx(clmul(q, r1), rem),
    ensures
        t == nx(clmul(nx(y, clmul(x, q)), r1), clmul(x, rem)),
{
    lemma_clmul_dist_right(x, clmul(q, r1), rem);
    lemma_clmul_assoc(x, q, r1);
    lemma_nx_assoc(clmul(clmul(x, q), r1), clmul(x, rem), clmul(y, r1));
    lemma_nx_comm(clmul(x, rem), clmul(y, r1));
    lemma_nx_assoc(clmul(clmul(x, q), r1), clmul(y, r1), clmul(x, rem));
    lemma_clmul_dist_left(clmul(x, q), y, r1);
    lemma_nx_comm(clmul(x, q), y);
}

/// One simultaneous update of the extended Euclidean algorithm preserves the
/// Bezout identity.
proof fn lemma_bezout_step(
    av: nat,
    bv: nat,
    r0: nat,
    u0: nat,
    v0: nat,
    r1: nat,
    u1: nat,
    v1: nat,
    q: nat,
    rem: nat,
)
    requires
        r0 == nx(clmul(u0, av), clmul(v0, bv)),
        r1 == nx(clmul(u1, av), clmul(v1, bv)),
        r0 == nx(clmul(q, r1), rem),
    ensures
        rem == nx(clmul(nx(u0, clmul(q, u1)), av), clmul(nx(v0, clmul(q, v1)), bv)),
{
    // rem == r0 (+) q*r1.
    lemma_nx_assoc(clmul(q, r1), rem, clmul(q, r1));
    lemma_nx_comm(rem, clmul(q, r1));
    lemma_nx_assoc(rem, clmul(q, r1), clmul(q, r1));
    lemma_nx_self(clmul(q, r1));
    lemma_nx_zero(rem);
    assert(nx(r0, clmul(q, r1)) == rem) by {
        lemma_nx_comm(clmul(q, r1), rem);
        lemma_nx_assoc(clmul(q, r1), rem, clmul(q, r1));
        lemma_nx_comm(r0, clmul(q, r1));
        lemma_nx_assoc(clmul(q, r1), clmul(q, r1), rem);
        lemma_nx_self(clmul(q, r1));
        lemma_nx_zero(rem);
    };
    // q*r1 splits over the two tracked products.
    lemma_clmul_dist_right(q, clmul(u1, av), clmul(v1, bv));
    lemma_clmul_assoc(q, u1, av);
    lemma_clmul_assoc(q, v1, bv);
    // Shuffle the four summands into the two new coefficients.
    lemma_nx_shuffle(clmul(u0, av), clmul(v0, bv), clmul(clmul(q, u1), av), clmul(clmul(q, v1), bv));
    lemma_clmul_dist_left(u0, clmul(q, u1), av);
    lemma_clmul_dist_left(v0, clmul(q, v1), bv);
}

} // verus!
