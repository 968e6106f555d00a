//! The extension field F_{p^k}: polynomials over F_p with coefficients kept
//! reduced, stored low-to-high with length exactly `k`, and reduced modulo
//! the context's monic irreducible polynomial by schoolbook long division.

use vstd::prelude::*;
use vstd::arithmetic::div_mod::{
    lemma_small_mod,
    lemma_mod_bound,
    lemma_mod_division_less_than_divisor,
    lemma_div_denominator,
};
use vstd::arithmetic::power2::pow2;
use num::BigUint;
use crate::bigint::{big_nat, big_clone, big_is_zero, big_rem, big_bits, big_bit, big_from_u64, big_shr};
use crate::context::{FieldContext, lemma_equiv_sym, lemma_equiv_trans};
use crate::fp::{FpElement, add_mod, sub_mod, neg_mod, mul_mod, gcd_nat, lemma_fp_add_assoc, lemma_fp_mul_comm};
use crate::FieldError;

verus! {

/// The coefficient values of a vector of prime-field elements, low-to-high.
pub open spec fn coeff_view(s: Seq<FpElement>) -> Seq<nat> {
    s.map_values(|c: FpElement| big_nat(c.val))
}

/// One convolution term `a[j] * b[n-j]`, zero outside either range.
pub open spec fn conv_term(a: Seq<nat>, b: Seq<nat>, n: int, j: int, p: nat) -> nat {
    if 0 <= j < a.len() && 0 <= n - j < b.len() {
        mul_mod(a[j], b[n - j], p)
    } else {
        0
    }
}

/// The partial convolution sum over the first `jn` values of the left index.
pub open spec fn conv_partial(a: Seq<nat>, b: Seq<nat>, n: int, jn: nat, p: nat) -> nat
    decreases jn,
{
    if jn == 0 {
        0
    } else {
        add_mod(conv_partial(a, b, n, (jn - 1) as nat, p), conv_term(a, b, n, jn - 1, p), p)
    }
}

/// The full convolution product of two coefficient sequences, each entry
/// reduced modulo `p`.
pub open spec fn conv(a: Seq<nat>, b: Seq<nat>, p: nat) -> Seq<nat> {
    Seq::new((a.len() + b.len() - 1) as nat, |n: int| conv_partial(a, b, n, a.len(), p))
}

/// One schoolbook reduction step: cancel the leading coefficient against the
/// monic modulus, shifted to align, and drop the cancelled top coefficient.
pub open spec fn red_step(r: Seq<nat>, irr: Seq<nat>, p: nat) -> Seq<nat> {
    let diff = r.len() - irr.len();
    Seq::new(
        (r.len() - 1) as nat,
        |i: int|
            if i >= diff {
                sub_mod(r[i], mul_mod(r.last(), irr[i - diff], p), p)
            } else {
                r[i]
            },
    )
}

/// Schoolbook polynomial reduction: while the degree reaches the modulus
/// degree, cancel the top coefficient (or drop it when it is already zero).
pub open spec fn poly_mod_spec(r: Seq<nat>, irr: Seq<nat>, p: nat) -> Seq<nat>
    decreases r.len(),
{
    if r.len() < irr.len() || r.len() == 0 {
        r
    } else if r.last() == 0 {
        poly_mod_spec(r.drop_last(), irr, p)
    } else {
        poly_mod_spec(red_step(r, irr, p), irr, p)
    }
}

/// Drops trailing zero coefficients of a coefficient sequence.
pub open spec fn strip_spec(s: Seq<nat>) -> Seq<nat>
    decreases s.len(),
{
    if s.len() == 0 {
        s
    } else if s.last() == 0 {
        strip_spec(s.drop_last())
    } else {
        s
    }
}

/// Pads a coefficient sequence with zeros up to length `k`.
pub open spec fn pad_to(s: Seq<nat>, k: nat) -> Seq<nat> {
    if s.len() >= k {
        s
    } else {
        s + Seq::new((k - s.len()) as nat, |i: int| 0nat)
    }
}

/// What building an element from raw coefficients yields: pad to length `k`,
/// then reduce modulo the irreducible polynomial.
pub open spec fn fpp_norm_spec(s: Seq<nat>, irr: Seq<nat>, p: nat) -> Seq<nat> {
    poly_mod_spec(pad_to(s, (irr.len() - 1) as nat), irr, p)
}

/// The reduced product of two element coefficient sequences.
pub open spec fn fpp_mul_spec(a: Seq<nat>, b: Seq<nat>, irr: Seq<nat>, p: nat) -> Seq<nat> {
    poly_mod_spec(conv(a, b, p), irr, p)
}

/// The constant polynomial `c` of length `k`.
pub open spec fn sconst(c: nat, k: nat) -> Seq<nat> {
    Seq::new(
        k,
        |i: int|
            if i == 0 {
                c
            } else {
                0nat
            },
    )
}

/// The all-zero sequence of length `k`.
pub open spec fn fpp_zero(k: nat) -> Seq<nat> {
    Seq::new(k, |i: int| 0nat)
}

/// The multiplicative identity of length `k`.
pub open spec fn fpp_one(k: nat) -> Seq<nat> {
    Seq::new(
        k,
        |i: int|
            if i == 0 {
                1nat
            } else {
                0nat
            },
    )
}

/// The square-and-multiply ladder over F_{p^k}, consuming the exponent from
/// its lowest bit up; both exponentiation entry points return exactly this.
pub open spec fn fpp_ladder(base: Seq<nat>, e: nat, acc: Seq<nat>, irr: Seq<nat>, p: nat) -> Seq<
    nat,
>
    decreases e,
{
    if e == 0 {
        acc
    } else {
        fpp_ladder(
            fpp_mul_spec(base, base, irr, p),
            e / 2,
            if e % 2 == 1 {
                fpp_mul_spec(acc, base, irr, p)
            } else {
                acc
            },
            irr,
            p,
        )
    }
}

/// Every partial convolution sum is a reduced residue.
pub proof fn lemma_conv_partial_bound(a: Seq<nat>, b: Seq<nat>, n: int, jn: nat, p: nat)
    requires
        p >= 2,
    ensures
        conv_partial(a, b, n, jn, p) < p,
    decreases jn,
{
    if jn == 0 {
    } else {
        lemma_conv_partial_bound(a, b, n, (jn - 1) as nat, p);
        lemma_mod_bound(
            (conv_partial(a, b, n, (jn - 1) as nat, p) + conv_term(a, b, n, jn - 1, p)) as int,
            p as int,
        );
    }
}

/// Appending a left index whose term vanishes keeps the partial sum.
pub proof fn lemma_conv_partial_skip(a: Seq<nat>, b: Seq<nat>, n: int, jn: nat, p: nat)
    requires
        p >= 2,
        conv_term(a, b, n, jn as int, p) == 0,
    ensures
        conv_partial(a, b, n, jn + 1, p) == conv_partial(a, b, n, jn, p),
{
    lemma_conv_partial_bound(a, b, n, jn, p);
    lemma_small_mod(conv_partial(a, b, n, jn, p), p);
}

/// Extending the left-index range over vanishing terms keeps the partial sum.
pub proof fn lemma_conv_partial_pad(a: Seq<nat>, b: Seq<nat>, n: int, m0: nat, m1: nat, p: nat)
    requires
        p >= 2,
        m0 <= m1,
        forall|j: int| m0 <= j < m1 ==> #[trigger] conv_term(a, b, n, j, p) == 0,
    ensures
        conv_partial(a, b, n, m1, p) == conv_partial(a, b, n, m0, p),
    decreases m1 - m0,
{
    if m1 > m0 {
        lemma_conv_partial_pad(a, b, n, m0, (m1 - 1) as nat, p);
        lemma_conv_partial_skip(a, b, n, (m1 - 1) as nat, p);
    }
}

/// The full sum over `0 <= j <= n` splits into its lower part, taken over
/// the left sequence, and its upper part, taken in reverse over the swapped
/// sequences: each term `b[j] * a[n - j]` is the mirrored term
/// `a[n - j] * b[j]`.
proof fn lemma_conv_partial_swap(a: Seq<nat>, b: Seq<nat>, n: int, m: nat, p: nat)
    requires
        p >= 2,
        n >= 0,
        m <= n + 1,
    ensures
        conv_partial(a, b, n, (n + 1) as nat, p) == add_mod(
            conv_partial(a, b, n, (n + 1 - m) as nat, p),
            conv_partial(b, a, n, m, p),
            p,
        ),
    decreases m,
{
    lemma_conv_partial_bound(a, b, n, (n + 1) as nat, p);
    if m == 0 {
        lemma_small_mod(conv_partial(a, b, n, (n + 1) as nat, p), p);
    } else {
        lemma_conv_partial_swap(a, b, n, (m - 1) as nat, p);
        let lo = conv_partial(a, b, n, (n + 1 - m) as nat, p);
        let t = conv_term(a, b, n, n + 1 - m, p);
        let up = conv_partial(b, a, n, (m - 1) as nat, p);
        assert(conv_term(b, a, n, m - 1, p) == t) by {
            if 0 <= m - 1 < b.len() && 0 <= n - (m - 1) < a.len() {
                lemma_fp_mul_comm(b[m - 1], a[n - (m - 1)], p);
            }
        }
        assert(conv_partial(a, b, n, (n + 2 - m) as nat, p) == add_mod(lo, t, p));
        assert(conv_partial(b, a, n, m, p) == add_mod(up, conv_term(b, a, n, m - 1, p), p));
        lemma_conv_partial_bound(a, b, n, (n + 1 - m) as nat, p);
        lemma_conv_partial_bound(b, a, n, (m - 1) as nat, p);
        assert(t < p) by {
            if 0 <= n + 1 - m < a.len() && 0 <= n - (n + 1 - m) < b.len() {
                lemma_mod_bound((a[n + 1 - m] * b[m - 1]) as int, p as int);
            }
        }
        lemma_fp_add_assoc(lo, t, up, p);
        lemma_fp_add_assoc(lo, up, t, p);
        assert(add_mod(t, up, p) == add_mod(up, t, p));
    }
}

/// Law: convolution is symmetric in its two operands.
pub proof fn lemma_conv_comm(a: Seq<nat>, b: Seq<nat>, p: nat)
    requires
        p >= 2,
        a.len() >= 1,
        b.len() >= 1,
    ensures
        conv(a, b, p) == conv(b, a, p),
{
    let la = a.len() as int;
    let lb = b.len() as int;
    assert forall|n: int| 0 <= n < la + lb - 1 implies conv(a, b, p)[n] == conv(b, a, p)[n] by {
        if la <= n + 1 {
            lemma_conv_partial_pad(a, b, n, a.len(), (n + 1) as nat, p);
        } else {
            lemma_conv_partial_pad(a, b, n, (n + 1) as nat, a.len(), p);
        }
        if lb <= n + 1 {
            lemma_conv_partial_pad(b, a, n, b.len(), (n + 1) as nat, p);
        } else {
            lemma_conv_partial_pad(b, a, n, (n + 1) as nat, b.len(), p);
        }
        lemma_conv_partial_swap(a, b, n, (n + 1) as nat, p);
        lemma_conv_partial_bound(b, a, n, (n + 1) as nat, p);
        lemma_small_mod(conv_partial(b, a, n, (n + 1) as nat, p), p);
    }
    assert(conv(a, b, p) =~= conv(b, a, p));
}

/// Law: extension-field multiplication is commutative; the reduction step
/// acts on the one convolution the two orders share.
pub proof fn lemma_fpp_mul_comm(a: Seq<nat>, b: Seq<nat>, irr: Seq<nat>, p: nat)
    requires
        p >= 2,
        a.len() >= 1,
        b.len() >= 1,
    ensures
        fpp_mul_spec(a, b, irr, p) == fpp_mul_spec(b, a, irr, p),
{
    lemma_conv_comm(a, b, p);
}

/// Law: the constant-time ladder agrees with plain exponentiation whenever
/// the exponent is already reduced below the subgroup order; this is the
/// relation between the values `pow` and `pow_secure` return.
pub proof fn lemma_fpp_pow_secure_consistent(
    a: Seq<nat>,
    e: nat,
    order: nat,
    irr: Seq<nat>,
    p: nat,
)
    requires
        0 < order,
        e < order,
    ensures
        fpp_ladder(a, e % order, fpp_one((irr.len() - 1) as nat), irr, p) == fpp_ladder(
            a,
            e,
            fpp_one((irr.len() - 1) as nat),
            irr,
            p,
        ),
{
    lemma_small_mod(e, order);
}


/// Coefficient-wise sum of two equal-length coefficient vectors.
pub open spec fn sadd(a: Seq<nat>, b: Seq<nat>, p: nat) -> Seq<nat> {
    Seq::new(a.len(), |i: int| add_mod(a[i], b[i], p))
}

/// Coefficient-wise difference of two equal-length coefficient vectors.
pub open spec fn ssub(a: Seq<nat>, b: Seq<nat>, p: nat) -> Seq<nat> {
    Seq::new(a.len(), |i: int| sub_mod(a[i], b[i], p))
}

/// Coefficient-wise additive inverse.
pub open spec fn sneg(a: Seq<nat>, p: nat) -> Seq<nat> {
    Seq::new(a.len(), |i: int| neg_mod(a[i], p))
}

/// A coefficient vector with all entries reduced below `p`.
pub open spec fn reduced_seq(a: Seq<nat>, p: nat) -> bool {
    forall|i: int| 0 <= i < a.len() ==> a[i] < p
}

/// Law: adding the zero polynomial leaves a reduced element unchanged.
pub proof fn lemma_fpp_add_zero(a: Seq<nat>, p: nat)
    requires
        p >= 2,
        reduced_seq(a, p),
    ensures
        sadd(a, fpp_zero(a.len()), p) == a,
{
    assert forall|i: int| 0 <= i < a.len() implies sadd(a, fpp_zero(a.len()), p)[i] == a[i] by {
        crate::fp::lemma_fp_add_zero(a[i], p);
    }
    assert(sadd(a, fpp_zero(a.len()), p) =~= a);
}

/// Law: an element plus its coefficient-wise negation is the zero
/// polynomial.
pub proof fn lemma_fpp_add_neg(a: Seq<nat>, p: nat)
    requires
        p >= 2,
        reduced_seq(a, p),
    ensures
        sadd(a, sneg(a, p), p) == fpp_zero(a.len()),
{
    assert forall|i: int| 0 <= i < a.len() implies sadd(a, sneg(a, p), p)[i] == 0 by {
        crate::fp::lemma_fp_add_neg(a[i], p);
    }
    assert(sadd(a, sneg(a, p), p) =~= fpp_zero(a.len()));
}

/// Law: coefficient-wise addition is commutative.
pub proof fn lemma_fpp_add_comm(a: Seq<nat>, b: Seq<nat>, p: nat)
    requires
        p >= 2,
        a.len() == b.len(),
    ensures
        sadd(a, b, p) == sadd(b, a, p),
{
    assert(sadd(a, b, p) =~= sadd(b, a, p));
}

/// Law: coefficient-wise addition is associative, over reduced elements.
pub proof fn lemma_fpp_add_assoc(a: Seq<nat>, b: Seq<nat>, c: Seq<nat>, p: nat)
    requires
        p >= 2,
        a.len() == b.len(),
        b.len() == c.len(),
        reduced_seq(a, p),
        reduced_seq(b, p),
        reduced_seq(c, p),
    ensures
        sadd(sadd(a, b, p), c, p) == sadd(a, sadd(b, c, p), p),
{
    assert forall|i: int| 0 <= i < a.len() implies sadd(sadd(a, b, p), c, p)[i] == sadd(
        a,
        sadd(b, c, p),
        p,
    )[i] by {
        crate::fp::lemma_fp_add_assoc(a[i], b[i], c[i], p);
    }
    assert(sadd(sadd(a, b, p), c, p) =~= sadd(a, sadd(b, c, p), p));
}


/// The convolution of `a` with the identity polynomial: each partial sum
/// collapses to the single matching term.
proof fn lemma_conv_partial_one(a: Seq<nat>, k: nat, n: int, jn: nat, p: nat)
    requires
        p >= 2,
        k >= 1,
        a.len() >= 1,
        reduced_seq(a, p),
    ensures
        conv_partial(a, fpp_one(k), n, jn, p) == if 0 <= n < a.len() && n < jn {
            a[n]
        } else {
            0nat
        },
    decreases jn,
{
    if jn == 0 {
    } else {
        lemma_conv_partial_one(a, k, n, (jn - 1) as nat, p);
        let prev = conv_partial(a, fpp_one(k), n, (jn - 1) as nat, p);
        let t = conv_term(a, fpp_one(k), n, jn - 1, p);
        if 0 <= jn - 1 < a.len() && 0 <= n - (jn - 1) < k {
            if n == jn - 1 {
                // The identity's constant coefficient selects a[n].
                assert(t == mul_mod(a[n], 1, p));
                crate::fp::lemma_fp_mul_one(a[n], p);
                lemma_small_mod(a[n], p);
            } else {
                assert(fpp_one(k)[n - (jn - 1)] == 0);
                assert(t == mul_mod(a[jn - 1], 0, p));
                assert(a[jn - 1] * 0 == 0) by (nonlinear_arith);
                lemma_small_mod(0, p);
                if 0 <= n < a.len() && n < jn {
                    lemma_small_mod(a[n], p);
                } else {
                    lemma_small_mod(0, p);
                }
            }
        } else {
            assert(t == 0);
            if 0 <= n < a.len() && n < jn {
                lemma_small_mod(a[n], p);
            } else {
                lemma_small_mod(0, p);
            }
        }
    }
}

/// Reduction drops trailing zero coefficients of an already-reduced value.
proof fn lemma_poly_mod_spec_trailing_zeros(a: Seq<nat>, z: nat, irr: Seq<nat>, p: nat)
    requires
        irr.len() >= 2,
        a.len() == irr.len() - 1,
        a.len() + z >= irr.len() - 1,
    ensures
        poly_mod_spec(a + Seq::new(z, |i: int| 0nat), irr, p) == a,
    decreases z,
{
    let padded = a + Seq::new(z, |i: int| 0nat);
    if z == 0 {
        assert(padded =~= a);
    } else {
        assert(padded.last() == 0);
        lemma_poly_mod_spec_trailing_zeros(a, (z - 1) as nat, irr, p);
        assert(padded.drop_last() =~= a + Seq::new((z - 1) as nat, |i: int| 0nat));
    }
}

/// Law: multiplying a reduced element by the identity polynomial leaves it
/// unchanged.
pub proof fn lemma_fpp_mul_one(a: Seq<nat>, irr: Seq<nat>, p: nat)
    requires
        p >= 2,
        irr.len() >= 2,
        a.len() == irr.len() - 1,
        reduced_seq(a, p),
    ensures
        fpp_mul_spec(a, fpp_one((irr.len() - 1) as nat), irr, p) == a,
{
    let k = (irr.len() - 1) as nat;
    let c = conv(a, fpp_one(k), p);
    assert forall|n: int| 0 <= n < c.len() implies c[n] == (a + Seq::new(
        (k - 1) as nat,
        |i: int| 0nat,
    ))[n] by {
        lemma_conv_partial_one(a, k, n, a.len(), p);
    }
    assert(c =~= a + Seq::new((k - 1) as nat, |i: int| 0nat));
    lemma_poly_mod_spec_trailing_zeros(a, (k - 1) as nat, irr, p);
}


/// Every convolution term of the zero polynomial vanishes.
proof fn lemma_conv_partial_zero(a: Seq<nat>, b: Seq<nat>, n: int, jn: nat, p: nat)
    requires
        p >= 2,
        forall|i: int| 0 <= i < a.len() ==> a[i] == 0,
    ensures
        conv_partial(a, b, n, jn, p) == 0,
    decreases jn,
{
    if jn != 0 {
        lemma_conv_partial_zero(a, b, n, (jn - 1) as nat, p);
        let t = conv_term(a, b, n, jn - 1, p);
        assert(t == 0) by {
            if 0 <= jn - 1 < a.len() && 0 <= n - (jn - 1) < b.len() {
                assert(a[jn - 1] == 0);
                assert(0nat * b[n - (jn - 1)] == 0) by (nonlinear_arith);
                lemma_small_mod(0, p);
            }
        };
        lemma_small_mod(0, p);
    }
}

/// Reduction of an all-zero sequence yields an all-zero sequence.
proof fn lemma_poly_mod_spec_zero(r: Seq<nat>, irr: Seq<nat>, p: nat)
    requires
        forall|i: int| 0 <= i < r.len() ==> r[i] == 0,
    ensures
        forall|i: int|
            0 <= i < poly_mod_spec(r, irr, p).len() ==> poly_mod_spec(r, irr, p)[i] == 0,
    decreases r.len(),
{
    if r.len() < irr.len() || r.len() == 0 {
        assert(poly_mod_spec(r, irr, p) == r);
        assert forall|i: int| 0 <= i < r.len() implies r[i] == 0 by {}
    } else {
        assert(r.last() == 0);
        assert(poly_mod_spec(r, irr, p) == poly_mod_spec(r.drop_last(), irr, p));
        assert forall|i: int|
            0 <= i < r.drop_last().len() implies r.drop_last()[i] == 0 by {
            assert(r.drop_last()[i] == r[i]);
        }
        lemma_poly_mod_spec_zero(r.drop_last(), irr, p);
    }
}

/// Law: the zero polynomial annihilates under multiplication, so it has no
/// inverse.
pub proof fn lemma_fpp_mul_zero(b: Seq<nat>, irr: Seq<nat>, p: nat)
    requires
        p >= 2,
        irr.len() >= 2,
    ensures
        forall|i: int|
            0 <= i < fpp_mul_spec(fpp_zero((irr.len() - 1) as nat), b, irr, p).len()
                ==> #[trigger] fpp_mul_spec(fpp_zero((irr.len() - 1) as nat), b, irr, p)[i] == 0,
{
    let k = (irr.len() - 1) as nat;
    let z = fpp_zero(k);
    let c = conv(z, b, p);
    assert forall|n: int| 0 <= n < c.len() implies c[n] == 0 by {
        lemma_conv_partial_zero(z, b, n, z.len(), p);
    }
    lemma_poly_mod_spec_zero(c, irr, p);
}


/// In the degree-1 field the reduced product of two constants is the
/// prime-field product.
pub proof fn lemma_fpp_mul_singleton(c: nat, i: nat, irr: Seq<nat>, p: nat)
    requires
        p >= 2,
        irr.len() == 2,
    ensures
        fpp_mul_spec(seq![c], seq![i], irr, p) == seq![mul_mod(c, i, p)],
{
    let a: Seq<nat> = seq![c];
    let b: Seq<nat> = seq![i];
    let cs = conv(a, b, p);
    assert(cs.len() == 1);
    assert(conv_term(a, b, 0, 0, p) == mul_mod(c, i, p));
    assert(conv_partial(a, b, 0, 0, p) == 0);
    assert(cs[0] == add_mod(0, mul_mod(c, i, p), p));
    lemma_mod_bound((c * i) as int, p as int);
    lemma_small_mod(mul_mod(c, i, p), p);
    assert(cs =~= seq![mul_mod(c, i, p)]);
    assert(poly_mod_spec(cs, irr, p) == cs);
}

/// An element of F_{p^k}: a coefficient vector of length exactly `k`, each
/// coefficient a reduced element of F_p sharing the same context.
#[derive(Debug)]
pub struct FpPolynomialElement {
    pub ctx: FieldContext,
    pub coeffs: Vec<FpElement>,
}

impl FpPolynomialElement {
    /// The coefficient values, low-to-high.
    pub open spec fn pv(&self) -> Seq<nat> {
        coeff_view(self.coeffs@)
    }

    /// The prime modulus of the coefficient field.
    pub open spec fn p(&self) -> nat {
        self.ctx.prime_nat()
    }

    /// The irreducible polynomial's coefficient values.
    pub open spec fn irr(&self) -> Seq<nat> {
        self.ctx.irr_seq()
    }

    /// The extension degree.
    pub open spec fn k(&self) -> nat {
        self.ctx.ext_degree()
    }

    pub open spec fn wf(&self) -> bool {
        &&& self.ctx.wf()
        &&& self.ctx is Extension
        &&& self.coeffs@.len() == self.k()
        &&& forall|i: int|
            0 <= i < self.coeffs@.len() ==> {
                &&& (#[trigger] self.coeffs@[i]).wf()
                &&& self.coeffs@[i].ctx.equiv(&self.ctx)
            }
    }

    pub open spec fn same_field(&self, other: &FpPolynomialElement) -> bool {
        self.ctx.equiv(&other.ctx)
    }

    /// Builds an element from raw coefficients of the same context: pads
    /// with zeros to length `k` and reduces modulo the irreducible
    /// polynomial.
    pub fn new(ctx: &FieldContext, coeffs: Vec<FpElement>) -> (r: FpPolynomialElement)
        requires
            ctx.wf(),
            ctx is Extension,
            forall|i: int|
                0 <= i < coeffs@.len() ==> {
                    &&& (#[trigger] coeffs@[i]).wf()
                    &&& coeffs@[i].ctx.equiv(ctx)
                },
        ensures
            r.wf(),
            r.ctx.equiv(ctx),
            r.pv() == fpp_norm_spec(coeff_view(coeffs@), ctx.irr_seq(), ctx.prime_nat()),
    {
        let ghost orig = coeff_view(coeffs@);
        let k = ctx.ext_degree_exec();
        let mut padded = coeffs;
        while padded.len() < k
            invariant
                ctx.wf(),
                ctx is Extension,
                k as nat == ctx.ext_degree(),
                orig.len() <= padded@.len(),
                padded@.len() <= k || padded@.len() == orig.len(),
                coeff_view(padded@) == orig + Seq::new(
                    (padded@.len() - orig.len()) as nat,
                    |i: int| 0nat,
                ),
                forall|i: int|
                    0 <= i < padded@.len() ==> {
                        &&& (#[trigger] padded@[i]).wf()
                        &&& padded@[i].ctx.equiv(ctx)
                    },
            decreases k - padded.len(),
        {
            let z = FpElement::zero(ctx);
            let ghost before = padded@;
            padded.push(z);
            proof {
                assert(coeff_view(padded@) =~= coeff_view(before).push(0));
                assert(coeff_view(before).push(0) =~= orig + Seq::new(
                    (padded@.len() - orig.len()) as nat,
                    |i: int| 0nat,
                ));
            }
        }
        proof {
            assert(coeff_view(padded@) =~= pad_to(orig, k as nat));
        }
        Self::reduce(ctx, padded)
    }

    /// Builds an element from small integer coefficients.
    pub fn from_vec(context: &FieldContext, coeffs: Vec<u64>) -> (r: FpPolynomialElement)
        requires
            context.wf(),
            context is Extension,
        ensures
            r.wf(),
            r.ctx.equiv(context),
            r.pv() == fpp_norm_spec(
                coeffs@.map_values(|c: u64| (c as nat) % context.prime_nat()),
                context.irr_seq(),
                context.prime_nat(),
            ),
    {
        let mut fp_coeffs: Vec<FpElement> = Vec::new();
        let mut i: usize = 0;
        while i < coeffs.len()
            invariant
                context.wf(),
                context is Extension,
                i <= coeffs@.len(),
                fp_coeffs@.len() == i as nat,
                forall|j: int|
                    0 <= j < i as int ==> {
                        &&& (#[trigger] fp_coeffs@[j]).wf()
                        &&& fp_coeffs@[j].ctx.equiv(context)
                        &&& big_nat(fp_coeffs@[j].val) == (coeffs@[j] as nat) % context.prime_nat()
                    },
            decreases coeffs.len() - i,
        {
            fp_coeffs.push(FpElement::new(context, big_from_u64(coeffs[i])));
            i += 1;
        }
        proof {
            assert(coeff_view(fp_coeffs@) =~= coeffs@.map_values(
                |c: u64| (c as nat) % context.prime_nat(),
            ));
        }
        Self::new(context, fp_coeffs)
    }

    /// Embeds a prime-field element as the constant polynomial.
    pub fn from_fp(context: &FieldContext, fp: FpElement) -> (r: FpPolynomialElement)
        requires
            context.wf(),
            context is Extension,
            fp.wf(),
            fp.ctx.equiv(context),
        ensures
            r.wf(),
            r.ctx.equiv(context),
            r.pv().len() == context.ext_degree(),
            r.pv()[0] == fp.v(),
            forall|i: int| 1 <= i < r.pv().len() ==> r.pv()[i] == 0,
    {
        let ghost fv = fp.v();
        let mut coeffs: Vec<FpElement> = Vec::new();
        coeffs.push(fp);
        let r = Self::new(context, coeffs);
        proof {
            let k = context.ext_degree();
            let irr = context.irr_seq();
            let p = context.prime_nat();
            let padded = pad_to(coeff_view(coeffs@), k);
            assert(padded.len() == k);
            assert(padded.len() < irr.len());
            assert(r.pv() == padded);
            assert(padded[0] == fv);
        }
        r
    }

    /// Reduces a coefficient vector of length at least `k` and wraps it.
    fn reduce(ctx: &FieldContext, coeffs: Vec<FpElement>) -> (r: FpPolynomialElement)
        requires
            ctx.wf(),
            ctx is Extension,
            coeffs@.len() >= ctx.ext_degree(),
            forall|i: int|
                0 <= i < coeffs@.len() ==> {
                    &&& (#[trigger] coeffs@[i]).wf()
                    &&& coeffs@[i].ctx.equiv(ctx)
                },
        ensures
            r.wf(),
            r.ctx.equiv(ctx),
            r.pv() == poly_mod_spec(coeff_view(coeffs@), ctx.irr_seq(), ctx.prime_nat()),
    {
        let ghost orig = coeff_view(coeffs@);
        let ghost irrv = ctx.irr_seq();
        let ghost p = ctx.prime_nat();
        let k = ctx.ext_degree_exec();
        let mut work = coeffs;
        while work.len() > k
            invariant
                ctx.wf(),
                ctx is Extension,
                k as nat == ctx.ext_degree(),
                irrv == ctx.irr_seq(),
                p == ctx.prime_nat(),
                work@.len() >= k as nat,
                poly_mod_spec(coeff_view(work@), irrv, p) == poly_mod_spec(orig, irrv, p),
                forall|i: int|
                    0 <= i < work@.len() ==> {
                        &&& (#[trigger] work@[i]).wf()
                        &&& work@[i].ctx.equiv(ctx)
                    },
            decreases work.len(),
        {
            let ghost before = coeff_view(work@);
            let lead_ref = &work[work.len() - 1];
            if lead_ref.is_zero() {
                work.pop();
                proof {
                    assert(coeff_view(work@) =~= before.drop_last());
                }
            } else {
                let lead = work[work.len() - 1].clone();
                let diff = work.len() - (k + 1);
                let mut out: Vec<FpElement> = Vec::new();
                let mut i: usize = 0;
                while i < work.len() - 1
                    invariant
                        ctx.wf(),
                        ctx is Extension,
                        k as nat == ctx.ext_degree(),
                        irrv == ctx.irr_seq(),
                        p == ctx.prime_nat(),
                        work@.len() >= k as nat + 1,
                        diff as nat == work@.len() - (k as nat + 1),
                        before == coeff_view(work@),
                        lead.wf(),
                        lead.ctx.equiv(ctx),
                        big_nat(lead.val) == before.last(),
                        i <= work@.len() - 1,
                        out@.len() == i as nat,
                        forall|j: int|
                            0 <= j < i as int ==> {
                                &&& (#[trigger] out@[j]).wf()
                                &&& out@[j].ctx.equiv(ctx)
                                &&& big_nat(out@[j].val) == red_step(before, irrv, p)[j]
                            },
                        forall|j: int|
                            0 <= j < work@.len() ==> {
                                &&& (#[trigger] work@[j]).wf()
                                &&& work@[j].ctx.equiv(ctx)
                            },
                    decreases work.len() - 1 - i,
                {
                    if i >= diff {
                        let irr_c = FpElement::new(ctx, big_clone(ctx.irr_coeff(i - diff)));
                        proof {
                            lemma_small_mod(irrv[(i - diff) as int], p);
                            lemma_equiv_sym(&irr_c.ctx, ctx);
                            lemma_equiv_trans(&lead.ctx, ctx, &irr_c.ctx);
                        }
                        let t = lead.mul(&irr_c);
                        proof {
                            lemma_equiv_trans(&t.ctx, &lead.ctx, ctx);
                            lemma_equiv_sym(&t.ctx, ctx);
                            lemma_equiv_trans(&work@[i as int].ctx, ctx, &t.ctx);
                        }
                        let s = work[i].sub(&t);
                        proof {
                            lemma_equiv_trans(&s.ctx, &work@[i as int].ctx, ctx);
                        }
                        out.push(s);
                    } else {
                        out.push(work[i].clone());
                    }
                    i += 1;
                }
                proof {
                    assert(coeff_view(out@) =~= red_step(before, irrv, p));
                }
                work = out;
            }
        }
        proof {
            assert(poly_mod_spec(coeff_view(work@), irrv, p) == coeff_view(work@));
        }
        FpPolynomialElement { ctx: ctx.clone(), coeffs: work }
    }

    /// The additive identity: the zero polynomial of length `k`.
    pub fn zero(ctx: &FieldContext) -> (r: FpPolynomialElement)
        requires
            ctx.wf(),
            ctx is Extension,
        ensures
            r.wf(),
            r.ctx.equiv(ctx),
            r.pv() == fpp_zero(ctx.ext_degree()),
    {
        let k = ctx.ext_degree_exec();
        let mut coeffs: Vec<FpElement> = Vec::new();
        let mut i: usize = 0;
        while i < k
            invariant
                ctx.wf(),
                ctx is Extension,
                k as nat == ctx.ext_degree(),
                i <= k,
                coeffs@.len() == i as nat,
                forall|j: int|
                    0 <= j < i as int ==> {
                        &&& (#[trigger] coeffs@[j]).wf()
                        &&& coeffs@[j].ctx.equiv(ctx)
                        &&& big_nat(coeffs@[j].val) == 0
                    },
            decreases k - i,
        {
            coeffs.push(FpElement::zero(ctx));
            i += 1;
        }
        let r = FpPolynomialElement { ctx: ctx.clone(), coeffs };
        proof {
            assert(r.pv() =~= fpp_zero(ctx.ext_degree()));
        }
        r
    }

    /// The multiplicative identity: the constant polynomial 1.
    pub fn one(ctx: &FieldContext) -> (r: FpPolynomialElement)
        requires
            ctx.wf(),
            ctx is Extension,
        ensures
            r.wf(),
            r.ctx.equiv(ctx),
            r.pv() == fpp_one(ctx.ext_degree()),
    {
        let k = ctx.ext_degree_exec();
        let mut coeffs: Vec<FpElement> = Vec::new();
        coeffs.push(FpElement::one(ctx));
        let mut i: usize = 1;
        while i < k
            invariant
                ctx.wf(),
                ctx is Extension,
                k as nat == ctx.ext_degree(),
                1 <= i <= k || (i == 1 && k == 1),
                coeffs@.len() == i as nat,
                forall|j: int|
                    0 <= j < i as int ==> {
                        &&& (#[trigger] coeffs@[j]).wf()
                        &&& coeffs@[j].ctx.equiv(ctx)
                        &&& big_nat(coeffs@[j].val) == fpp_one(k as nat)[j]
                    },
            decreases k - i,
        {
            coeffs.push(FpElement::zero(ctx));
            i += 1;
        }
        let r = FpPolynomialElement { ctx: ctx.clone(), coeffs };
        proof {
            assert(r.pv() =~= fpp_one(ctx.ext_degree()));
        }
        r
    }

    /// Whether every coefficient is zero.
    pub fn is_zero(&self) -> (r: bool)
        requires
            self.wf(),
        ensures
            r <==> self.pv() == fpp_zero(self.k()),
    {
        let mut i: usize = 0;
        let mut all_zero = true;
        while i < self.coeffs.len()
            invariant
                self.wf(),
                i <= self.coeffs@.len(),
                all_zero ==> forall|j: int| 0 <= j < i as int ==> self.pv()[j] == 0,
                !all_zero ==> exists|j: int| 0 <= j < i as int && self.pv()[j] != 0,
            decreases self.coeffs.len() - i,
        {
            if !self.coeffs[i].is_zero() {
                all_zero = false;
                proof {
                    assert(self.pv()[i as int] != 0);
                }
            }
            i += 1;
        }
        proof {
            if all_zero {
                assert(self.pv() =~= fpp_zero(self.k()));
            } else {
                let j = choose|j: int| 0 <= j < self.pv().len() && self.pv()[j] != 0;
                assert(self.pv()[j] != fpp_zero(self.k())[j]);
            }
        }
        all_zero
    }

    /// Whether this element is the multiplicative identity.
    fn is_one(&self) -> (r: bool)
        requires
            self.wf(),
        ensures
            r <==> self.pv() == fpp_one(self.k()),
    {
        let mut i: usize = 0;
        let mut matches_one = true;
        while i < self.coeffs.len()
            invariant
                self.wf(),
                i <= self.coeffs@.len(),
                matches_one ==> forall|j: int|
                    0 <= j < i as int ==> self.pv()[j] == fpp_one(self.k())[j],
                !matches_one ==> exists|j: int|
                    0 <= j < i as int && self.pv()[j] != fpp_one(self.k())[j],
            decreases self.coeffs.len() - i,
        {
            let expected: u64 = if i == 0 {
                1
            } else {
                0
            };
            let e = big_from_u64(expected);
            if !crate::bigint::big_eq(&self.coeffs[i].val, &e) {
                matches_one = false;
                proof {
                    assert(self.pv()[i as int] != fpp_one(self.k())[i as int]);
                }
            }
            i += 1;
        }
        proof {
            if matches_one {
                assert(self.pv() =~= fpp_one(self.k()));
            } else {
                let j = choose|j: int|
                    0 <= j < self.pv().len() && self.pv()[j] != fpp_one(self.k())[j];
                assert(self.pv()[j] != fpp_one(self.k())[j]);
            }
        }
        matches_one
    }

    /// Coefficient-wise field addition.
    pub fn add(&self, other: &FpPolynomialElement) -> (r: FpPolynomialElement)
        requires
            self.wf(),
            other.wf(),
            self.same_field(other),
        ensures
            r.wf(),
            r.ctx.equiv(&self.ctx),
            r.pv().len() == self.k(),
            forall|i: int|
                0 <= i < r.pv().len() ==> r.pv()[i] == add_mod(self.pv()[i], other.pv()[i], self.p()),
    {
        let mut out: Vec<FpElement> = Vec::new();
        let mut i: usize = 0;
        while i < self.coeffs.len()
            invariant
                self.wf(),
                other.wf(),
                self.same_field(other),
                i <= self.coeffs@.len(),
                self.coeffs@.len() == other.coeffs@.len(),
                out@.len() == i as nat,
                forall|j: int|
                    0 <= j < i as int ==> {
                        &&& (#[trigger] out@[j]).wf()
                        &&& out@[j].ctx.equiv(&self.ctx)
                        &&& big_nat(out@[j].val) == add_mod(self.pv()[j], other.pv()[j], self.p())
                    },
            decreases self.coeffs.len() - i,
        {
            proof {
                lemma_equiv_trans(&self.coeffs@[i as int].ctx, &self.ctx, &other.ctx);
                lemma_equiv_sym(&other.coeffs@[i as int].ctx, &other.ctx);
                lemma_equiv_trans(&self.coeffs@[i as int].ctx, &other.ctx, &other.coeffs@[i as int].ctx);
            }
            let s = self.coeffs[i].add(&other.coeffs[i]);
            proof {
                lemma_equiv_trans(&s.ctx, &self.coeffs@[i as int].ctx, &self.ctx);
            }
            out.push(s);
            i += 1;
        }
        FpPolynomialElement { ctx: self.ctx.clone(), coeffs: out }
    }

    /// Coefficient-wise field subtraction.
    pub fn sub(&self, other: &FpPolynomialElement) -> (r: FpPolynomialElement)
        requires
            self.wf(),
            other.wf(),
            self.same_field(other),
        ensures
            r.wf(),
            r.ctx.equiv(&self.ctx),
            r.pv().len() == self.k(),
            forall|i: int|
                0 <= i < r.pv().len() ==> r.pv()[i] == sub_mod(self.pv()[i], other.pv()[i], self.p()),
    {
        let mut out: Vec<FpElement> = Vec::new();
        let mut i: usize = 0;
        while i < self.coeffs.len()
            invariant
                self.wf(),
                other.wf(),
                self.same_field(other),
                i <= self.coeffs@.len(),
                self.coeffs@.len() == other.coeffs@.len(),
                out@.len() == i as nat,
                forall|j: int|
                    0 <= j < i as int ==> {
                        &&& (#[trigger] out@[j]).wf()
                        &&& out@[j].ctx.equiv(&self.ctx)
                        &&& big_nat(out@[j].val) == sub_mod(self.pv()[j], other.pv()[j], self.p())
                    },
            decreases self.coeffs.len() - i,
        {
            proof {
                lemma_equiv_trans(&self.coeffs@[i as int].ctx, &self.ctx, &other.ctx);
                lemma_equiv_sym(&other.coeffs@[i as int].ctx, &other.ctx);
                lemma_equiv_trans(&self.coeffs@[i as int].ctx, &other.ctx, &other.coeffs@[i as int].ctx);
            }
            let s = self.coeffs[i].sub(&other.coeffs[i]);
            proof {
                lemma_equiv_trans(&s.ctx, &self.coeffs@[i as int].ctx, &self.ctx);
            }
            out.push(s);
            i += 1;
        }
        FpPolynomialElement { ctx: self.ctx.clone(), coeffs: out }
    }

    /// Coefficient-wise additive inverse.
    pub fn neg(&self) -> (r: FpPolynomialElement)
        requires
            self.wf(),
        ensures
            r.wf(),
            r.ctx.equiv(&self.ctx),
            r.pv().len() == self.k(),
            forall|i: int| 0 <= i < r.pv().len() ==> r.pv()[i] == neg_mod(self.pv()[i], self.p()),
    {
        let mut out: Vec<FpElement> = Vec::new();
        let mut i: usize = 0;
        while i < self.coeffs.len()
            invariant
                self.wf(),
                i <= self.coeffs@.len(),
                out@.len() == i as nat,
                forall|j: int|
                    0 <= j < i as int ==> {
                        &&& (#[trigger] out@[j]).wf()
                        &&& out@[j].ctx.equiv(&self.ctx)
                        &&& big_nat(out@[j].val) == neg_mod(self.pv()[j], self.p())
                    },
            decreases self.coeffs.len() - i,
        {
            let s = self.coeffs[i].neg();
            proof {
                lemma_equiv_trans(&s.ctx, &self.coeffs@[i as int].ctx, &self.ctx);
            }
            out.push(s);
            i += 1;
        }
        FpPolynomialElement { ctx: self.ctx.clone(), coeffs: out }
    }

    /// Full convolution of two coefficient vectors.
    fn poly_mul_vec(ctx: &FieldContext, a: &Vec<FpElement>, b: &Vec<FpElement>) -> (r: Vec<
        FpElement,
    >)
        requires
            ctx.wf(),
            ctx is Extension,
            a@.len() >= 1,
            b@.len() >= 1,
            a@.len() + b@.len() <= usize::MAX,
            forall|i: int|
                0 <= i < a@.len() ==> (#[trigger] a@[i]).wf() && a@[i].ctx.equiv(ctx),
            forall|i: int|
                0 <= i < b@.len() ==> (#[trigger] b@[i]).wf() && b@[i].ctx.equiv(ctx),
        ensures
            r@.len() == a@.len() + b@.len() - 1,
            forall|i: int|
                0 <= i < r@.len() ==> (#[trigger] r@[i]).wf() && r@[i].ctx.equiv(ctx),
            coeff_view(r@) == conv(coeff_view(a@), coeff_view(b@), ctx.prime_nat()),
    {
        let ghost av = coeff_view(a@);
        let ghost bv = coeff_view(b@);
        let ghost p = ctx.prime_nat();
        let out_len = a.len() + b.len() - 1;
        let mut out: Vec<FpElement> = Vec::new();
        let mut i: usize = 0;
        while i < out_len
            invariant
                ctx.wf(),
                ctx is Extension,
                i <= out_len,
                out@.len() == i as nat,
                forall|j: int|
                    0 <= j < i as int ==> {
                        &&& (#[trigger] out@[j]).wf()
                        &&& out@[j].ctx.equiv(ctx)
                        &&& big_nat(out@[j].val) == 0
                    },
            decreases out_len - i,
        {
            out.push(FpElement::zero(ctx));
            i += 1;
        }
        let mut row: usize = 0;
        while row < a.len()
            invariant
                ctx.wf(),
                ctx is Extension,
                p == ctx.prime_nat(),
                av == coeff_view(a@),
                bv == coeff_view(b@),
                av.len() == a@.len(),
                bv.len() == b@.len(),
                a@.len() >= 1,
                b@.len() >= 1,
                row <= a@.len(),
                a@.len() + b@.len() <= usize::MAX,
                out@.len() == a@.len() + b@.len() - 1,
                forall|i2: int|
                    0 <= i2 < a@.len() ==> (#[trigger] a@[i2]).wf() && a@[i2].ctx.equiv(ctx),
                forall|i2: int|
                    0 <= i2 < b@.len() ==> (#[trigger] b@[i2]).wf() && b@[i2].ctx.equiv(ctx),
                forall|n: int|
                    0 <= n < out@.len() ==> {
                        &&& (#[trigger] out@[n]).wf()
                        &&& out@[n].ctx.equiv(ctx)
                        &&& big_nat(out@[n].val) == conv_partial(av, bv, n, row as nat, p)
                    },
            decreases a.len() - row,
        {
            let mut col: usize = 0;
            while col < b.len()
                invariant
                    ctx.wf(),
                    ctx is Extension,
                    p == ctx.prime_nat(),
                    av == coeff_view(a@),
                    bv == coeff_view(b@),
                    av.len() == a@.len(),
                    bv.len() == b@.len(),
                    a@.len() >= 1,
                    b@.len() >= 1,
                    row < a@.len(),
                    col <= b@.len(),
                    a@.len() + b@.len() <= usize::MAX,
                    out@.len() == a@.len() + b@.len() - 1,
                    forall|i2: int|
                        0 <= i2 < a@.len() ==> (#[trigger] a@[i2]).wf() && a@[i2].ctx.equiv(ctx),
                    forall|i2: int|
                        0 <= i2 < b@.len() ==> (#[trigger] b@[i2]).wf() && b@[i2].ctx.equiv(ctx),
                    forall|n: int|
                        0 <= n < out@.len() ==> {
                            &&& (#[trigger] out@[n]).wf()
                            &&& out@[n].ctx.equiv(ctx)
                            &&& big_nat(out@[n].val) == if row as int <= n < row + col {
                                conv_partial(av, bv, n, row as nat + 1, p)
                            } else {
                                conv_partial(av, bv, n, row as nat, p)
                            }
                        },
                decreases b.len() - col,
            {
                let n0 = row + col;
                proof {
                    lemma_equiv_trans(&a@[row as int].ctx, ctx, &b@[col as int].ctx);
                    lemma_equiv_sym(&b@[col as int].ctx, &b@[col as int].ctx);
                    lemma_equiv_sym(&b@[col as int].ctx, ctx);
                    lemma_equiv_trans(&a@[row as int].ctx, ctx, &b@[col as int].ctx);
                }
                proof {
                    lemma_equiv_sym(&b@[col as int].ctx, ctx);
                }
                let t = a[row].mul(&b[col]);
                proof {
                    lemma_equiv_trans(&t.ctx, &a@[row as int].ctx, ctx);
                    lemma_equiv_sym(&t.ctx, ctx);
                    lemma_equiv_trans(&out@[n0 as int].ctx, ctx, &t.ctx);
                }
                let updated = out[n0].add(&t);
                proof {
                    lemma_equiv_trans(&updated.ctx, &out@[n0 as int].ctx, ctx);
                }
                let ghost old_out = out@;
                out[n0] = updated;
                proof {
                    assert(out@ =~= old_out.update(n0 as int, updated));
                    // The updated entry advances its partial sum by one term.
                    assert(conv_term(av, bv, n0 as int, row as int, p) == mul_mod(
                        av[row as int],
                        bv[col as int],
                        p,
                    ));
                }
                col += 1;
            }
            proof {
                // Positions outside this row's reach have a vanishing term.
                assert forall|n: int|
                    0 <= n < out@.len() && !(row as int <= n < row + b@.len()) implies conv_partial(
                    av,
                    bv,
                    n,
                    row as nat + 1,
                    p,
                ) == conv_partial(av, bv, n, row as nat, p) by {
                    assert(conv_term(av, bv, n, row as int, p) == 0);
                    lemma_conv_partial_skip(av, bv, n, row as nat, p);
                }
            }
            row += 1;
        }
        proof {
            assert(coeff_view(out@) =~= conv(av, bv, p));
        }
        out
    }

    /// Field multiplication: convolution followed by reduction modulo the
    /// irreducible polynomial.
    pub fn mul(&self, other: &FpPolynomialElement) -> (r: FpPolynomialElement)
        requires
            self.wf(),
            other.wf(),
            self.same_field(other),
        ensures
            r.wf(),
            r.ctx.equiv(&self.ctx),
            r.pv() == fpp_mul_spec(self.pv(), other.pv(), self.irr(), self.p()),
    {
        proof {
            assert(self.coeffs@.len() + other.coeffs@.len() <= usize::MAX);
            assert forall|i: int|
                0 <= i < other.coeffs@.len() implies (#[trigger] other.coeffs@[i]).wf()
                && other.coeffs@[i].ctx.equiv(&self.ctx) by {
                lemma_equiv_sym(&self.ctx, &other.ctx);
                lemma_equiv_trans(&other.coeffs@[i].ctx, &other.ctx, &self.ctx);
            }
        }
        let prod = Self::poly_mul_vec(&self.ctx, &self.coeffs, &other.coeffs);
        Self::reduce(&self.ctx, prod)
    }
}

impl FpPolynomialElement {
    /// Drops trailing zero coefficients.
    fn strip_zeros(ctx: &FieldContext, v: Vec<FpElement>) -> (r: Vec<FpElement>)
        requires
            ctx.wf(),
            ctx is Extension,
            forall|i: int| 0 <= i < v@.len() ==> (#[trigger] v@[i]).wf() && v@[i].ctx.equiv(ctx),
        ensures
            forall|i: int| 0 <= i < r@.len() ==> (#[trigger] r@[i]).wf() && r@[i].ctx.equiv(ctx),
            r@.len() <= v@.len(),
            r@.len() > 0 ==> big_nat(r@[r@.len() - 1].val) != 0,
            coeff_view(r@) == strip_spec(coeff_view(v@)),
    {
        let ghost vlen = v@.len();
        let ghost v0 = coeff_view(v@);
        let mut out = v;
        while out.len() > 0 && out[out.len() - 1].is_zero()
            invariant
                ctx.wf(),
                ctx is Extension,
                out@.len() <= vlen,
                strip_spec(coeff_view(out@)) == strip_spec(v0),
                forall|i: int|
                    0 <= i < out@.len() ==> (#[trigger] out@[i]).wf() && out@[i].ctx.equiv(ctx),
            decreases out.len(),
        {
            let ghost before = coeff_view(out@);
            proof {
                assert(before.last() == 0);
            }
            out.pop();
            proof {
                assert(coeff_view(out@) =~= before.drop_last());
            }
        }
        proof {
            if out@.len() > 0 {
                assert(coeff_view(out@).last() != 0);
                assert(strip_spec(coeff_view(out@)) == coeff_view(out@));
            }
        }
        out
    }

    /// Polynomial long division with remainder over F_p coefficients; the
    /// divisor's leading zero coefficients are ignored, and the stripped
    /// remainder has strictly smaller length than the stripped divisor.
    /// Fails when the divisor is zero or its leading coefficient is not a
    /// unit.
    fn poly_div_raw(ctx: &FieldContext, a: &Vec<FpElement>, b: &Vec<FpElement>) -> (r: Result<
        (Vec<FpElement>, Vec<FpElement>),
        FieldError,
    >)
        requires
            ctx.wf(),
            ctx is Extension,
            forall|i: int| 0 <= i < a@.len() ==> (#[trigger] a@[i]).wf() && a@[i].ctx.equiv(ctx),
            forall|i: int| 0 <= i < b@.len() ==> (#[trigger] b@[i]).wf() && b@[i].ctx.equiv(ctx),
        ensures
            r is Ok <==> ({
                // Division succeeds exactly when the divisor has a nonzero
                // coefficient and its leading coefficient is a unit mod p.
                let bs = strip_spec(coeff_view(b@));
                bs.len() > 0 && gcd_nat(bs.last(), ctx.prime_nat()) == 1
            }),
            r is Ok ==> {
                &&& forall|i: int|
                    0 <= i < r->Ok_0.0@.len() ==> (#[trigger] r->Ok_0.0@[i]).wf()
                        && r->Ok_0.0@[i].ctx.equiv(ctx)
                &&& forall|i: int|
                    0 <= i < r->Ok_0.1@.len() ==> (#[trigger] r->Ok_0.1@[i]).wf()
                        && r->Ok_0.1@[i].ctx.equiv(ctx)
                &&& r->Ok_0.1@.len() < b@.len() + 1
                &&& (r->Ok_0.1@.len() == 0 || r->Ok_0.1@.len() < b@.len())
            },
            r is Err ==> r->Err_0 == FieldError::NonInvertible,
    {
        let mut bb: Vec<FpElement> = Vec::new();
        let mut i: usize = 0;
        while i < b.len()
            invariant
                ctx.wf(),
                ctx is Extension,
                i <= b@.len(),
                bb@.len() == i as nat,
                forall|j: int|
                    0 <= j < b@.len() ==> (#[trigger] b@[j]).wf() && b@[j].ctx.equiv(ctx),
                forall|j: int|
                    0 <= j < bb@.len() ==> (#[trigger] bb@[j]).wf() && bb@[j].ctx.equiv(ctx)
                        && big_nat(bb@[j].val) == big_nat(b@[j].val),
            decreases b.len() - i,
        {
            let c = b[i].clone();
            proof {
                lemma_equiv_trans(&c.ctx, &b@[i as int].ctx, ctx);
            }
            bb.push(c);
            i += 1;
        }
        proof {
            assert(coeff_view(bb@) =~= coeff_view(b@));
        }
        let ghost blen0 = bb@.len();
        let bs = Self::strip_zeros(ctx, bb);
        proof {
            assert(coeff_view(bs@) == strip_spec(coeff_view(b@)));
        }
        if bs.len() == 0 {
            // Division by the zero polynomial.
            return Err(FieldError::NonInvertible);
        }
        proof {
            lemma_equiv_sym(&bs@[bs@.len() - 1].ctx, ctx);
        }
        let lead_b = bs[bs.len() - 1].clone();
        proof {
            assert(big_nat(lead_b.val) == strip_spec(coeff_view(b@)).last());
            assert(lead_b.p() == ctx.prime_nat());
        }
        let inv_lead = match lead_b.inverse() {
            Ok(v) => v,
            Err(_) => {
                return Err(FieldError::NonInvertible);
            },
        };
        let mut aa: Vec<FpElement> = Vec::new();
        let mut j: usize = 0;
        while j < a.len()
            invariant
                ctx.wf(),
                ctx is Extension,
                j <= a@.len(),
                aa@.len() == j as nat,
                forall|j2: int|
                    0 <= j2 < a@.len() ==> (#[trigger] a@[j2]).wf() && a@[j2].ctx.equiv(ctx),
                forall|j2: int|
                    0 <= j2 < aa@.len() ==> (#[trigger] aa@[j2]).wf() && aa@[j2].ctx.equiv(ctx),
            decreases a.len() - j,
        {
            let c = a[j].clone();
            proof {
                lemma_equiv_trans(&c.ctx, &a@[j as int].ctx, ctx);
            }
            aa.push(c);
            j += 1;
        }
        let mut aa = Self::strip_zeros(ctx, aa);
        let qlen = if aa.len() >= bs.len() {
            aa.len() - bs.len() + 1
        } else {
            0
        };
        let mut quotient: Vec<FpElement> = Vec::new();
        let mut qi: usize = 0;
        while qi < qlen
            invariant
                ctx.wf(),
                ctx is Extension,
                qi <= qlen,
                quotient@.len() == qi as nat,
                forall|j2: int|
                    0 <= j2 < quotient@.len() ==> (#[trigger] quotient@[j2]).wf()
                        && quotient@[j2].ctx.equiv(ctx),
            decreases qlen - qi,
        {
            quotient.push(FpElement::zero(ctx));
            qi += 1;
        }
        while aa.len() >= bs.len()
            invariant
                ctx.wf(),
                ctx is Extension,
                bs@.len() >= 1,
                inv_lead.wf(),
                inv_lead.ctx.equiv(ctx),
                lead_b.wf(),
                lead_b.ctx.equiv(ctx),
                quotient@.len() >= aa@.len() - bs@.len() + 1 || aa@.len() < bs@.len(),
                forall|j2: int|
                    0 <= j2 < aa@.len() ==> (#[trigger] aa@[j2]).wf() && aa@[j2].ctx.equiv(ctx),
                forall|j2: int|
                    0 <= j2 < bs@.len() ==> (#[trigger] bs@[j2]).wf() && bs@[j2].ctx.equiv(ctx),
                forall|j2: int|
                    0 <= j2 < quotient@.len() ==> (#[trigger] quotient@[j2]).wf()
                        && quotient@[j2].ctx.equiv(ctx),
            decreases aa.len(),
        {
            let diff = aa.len() - bs.len();
            proof {
                lemma_equiv_sym(&aa@[aa@.len() - 1].ctx, ctx);
                lemma_equiv_trans(&aa@[aa@.len() - 1].ctx, ctx, &inv_lead.ctx);
            }
            let factor = aa[aa.len() - 1].mul(&inv_lead);
            proof {
                lemma_equiv_trans(&factor.ctx, &aa@[aa@.len() - 1].ctx, ctx);
            }
            // Fold the factor into the quotient.
            proof {
                lemma_equiv_sym(&quotient@[diff as int].ctx, ctx);
                lemma_equiv_trans(&quotient@[diff as int].ctx, ctx, &factor.ctx);
            }
            let newq = quotient[diff].add(&factor);
            proof {
                lemma_equiv_trans(&newq.ctx, &quotient@[diff as int].ctx, ctx);
            }
            quotient[diff] = newq;
            // Subtract the aligned multiple of the divisor and drop the top.
            let mut out: Vec<FpElement> = Vec::new();
            let mut ii: usize = 0;
            while ii < aa.len() - 1
                invariant
                    ctx.wf(),
                    ctx is Extension,
                    aa@.len() >= bs@.len(),
                    bs@.len() >= 1,
                    factor.wf(),
                    factor.ctx.equiv(ctx),
                    diff as nat == aa@.len() - bs@.len(),
                    ii <= aa@.len() - 1,
                    out@.len() == ii as nat,
                    forall|j2: int|
                        0 <= j2 < aa@.len() ==> (#[trigger] aa@[j2]).wf() && aa@[j2].ctx.equiv(
                            ctx,
                        ),
                    forall|j2: int|
                        0 <= j2 < bs@.len() ==> (#[trigger] bs@[j2]).wf() && bs@[j2].ctx.equiv(
                            ctx,
                        ),
                    forall|j2: int|
                        0 <= j2 < out@.len() ==> (#[trigger] out@[j2]).wf() && out@[j2].ctx.equiv(
                            ctx,
                        ),
                decreases aa.len() - 1 - ii,
            {
                if ii >= diff {
                    proof {
                        lemma_equiv_sym(&bs@[(ii - diff) as int].ctx, ctx);
                        lemma_equiv_trans(&factor.ctx, ctx, &bs@[(ii - diff) as int].ctx);
                    }
                    let t = factor.mul(&bs[ii - diff]);
                    proof {
                        lemma_equiv_trans(&t.ctx, &factor.ctx, ctx);
                        lemma_equiv_sym(&t.ctx, ctx);
                        lemma_equiv_trans(&aa@[ii as int].ctx, ctx, &t.ctx);
                    }
                    let s = aa[ii].sub(&t);
                    proof {
                        lemma_equiv_trans(&s.ctx, &aa@[ii as int].ctx, ctx);
                    }
                    out.push(s);
                } else {
                    let c = aa[ii].clone();
                    proof {
                        lemma_equiv_trans(&c.ctx, &aa@[ii as int].ctx, ctx);
                    }
                    out.push(c);
                }
                ii += 1;
            }
            let stripped = Self::strip_zeros(ctx, out);
            proof {
                assert(stripped@.len() <= aa@.len() - 1);
            }
            aa = stripped;
        }
        Ok((quotient, aa))
    }

    /// The extended Euclidean algorithm over F_p[x], returning a candidate
    /// inverse of this element modulo the irreducible polynomial.
    fn poly_inv_raw(&self) -> (r: Result<Vec<FpElement>, FieldError>)
        requires
            self.wf(),
        ensures
            r is Ok ==> forall|i: int|
                0 <= i < r->Ok_0@.len() ==> (#[trigger] r->Ok_0@[i]).wf()
                    && r->Ok_0@[i].ctx.equiv(&self.ctx),
            r is Err ==> r->Err_0 == FieldError::NonInvertible,
    {
        let ctx = &self.ctx;
        // r0 starts as the irreducible polynomial, r1 as this element.
        let klen = ctx.ext_degree_exec();
        let mut r0: Vec<FpElement> = Vec::new();
        let mut i: usize = 0;
        while i < klen + 1
            invariant
                ctx.wf(),
                ctx is Extension,
                klen as nat == ctx.ext_degree(),
                i <= klen + 1,
                r0@.len() == i as nat,
                forall|j: int|
                    0 <= j < r0@.len() ==> (#[trigger] r0@[j]).wf() && r0@[j].ctx.equiv(ctx),
            decreases klen + 1 - i,
        {
            proof {
                assert((i as nat) < ctx.irr_seq().len());
            }
            let c = FpElement::new(ctx, big_clone(ctx.irr_coeff(i)));
            i += 1;
            r0.push(c);
        }
        let mut r1: Vec<FpElement> = Vec::new();
        let mut j: usize = 0;
        while j < self.coeffs.len()
            invariant
                self.wf(),
                j <= self.coeffs@.len(),
                r1@.len() == j as nat,
                forall|j2: int|
                    0 <= j2 < r1@.len() ==> (#[trigger] r1@[j2]).wf() && r1@[j2].ctx.equiv(
                        &self.ctx,
                    ),
            decreases self.coeffs.len() - j,
        {
            let c = self.coeffs[j].clone();
            proof {
                lemma_equiv_trans(&c.ctx, &self.coeffs@[j as int].ctx, &self.ctx);
            }
            r1.push(c);
            j += 1;
        }
        let mut r1 = Self::strip_zeros(ctx, r1);
        let mut t0: Vec<FpElement> = Vec::new();
        let mut t1: Vec<FpElement> = Vec::new();
        t1.push(FpElement::one(ctx));
        while r1.len() > 0
            invariant
                self.wf(),
                ctx == &self.ctx,
                forall|j2: int|
                    0 <= j2 < r0@.len() ==> (#[trigger] r0@[j2]).wf() && r0@[j2].ctx.equiv(ctx),
                forall|j2: int|
                    0 <= j2 < r1@.len() ==> (#[trigger] r1@[j2]).wf() && r1@[j2].ctx.equiv(ctx),
                forall|j2: int|
                    0 <= j2 < t0@.len() ==> (#[trigger] t0@[j2]).wf() && t0@[j2].ctx.equiv(ctx),
                forall|j2: int|
                    0 <= j2 < t1@.len() ==> (#[trigger] t1@[j2]).wf() && t1@[j2].ctx.equiv(ctx),
            decreases r1.len(),
        {
            let (q, rem) = match Self::poly_div_raw(ctx, &r0, &r1) {
                Ok(v) => v,
                Err(_) => {
                    return Err(FieldError::NonInvertible);
                },
            };
            proof {
                assert(rem@.len() == 0 || rem@.len() < r1@.len());
            }
            let qt = Self::mul_raw(ctx, &q, &t1);
            let t2 = Self::sub_raw(ctx, &t0, &qt);
            r0 = r1;
            r1 = rem;
            t0 = t1;
            t1 = t2;
        }
        // Normalize by the leading coefficient of the final gcd.
        let r0s = Self::strip_zeros(ctx, r0);
        if r0s.len() == 0 {
            return Err(FieldError::NonInvertible);
        }
        proof {
            lemma_equiv_sym(&r0s@[r0s@.len() - 1].ctx, ctx);
        }
        let inv_lead = match r0s[r0s.len() - 1].inverse() {
            Ok(v) => v,
            Err(_) => {
                return Err(FieldError::NonInvertible);
            },
        };
        let mut scaled: Vec<FpElement> = Vec::new();
        let mut si: usize = 0;
        while si < t0.len()
            invariant
                ctx.wf(),
                ctx is Extension,
                inv_lead.wf(),
                inv_lead.ctx.equiv(ctx),
                si <= t0@.len(),
                scaled@.len() == si as nat,
                forall|j2: int|
                    0 <= j2 < t0@.len() ==> (#[trigger] t0@[j2]).wf() && t0@[j2].ctx.equiv(ctx),
                forall|j2: int|
                    0 <= j2 < scaled@.len() ==> (#[trigger] scaled@[j2]).wf()
                        && scaled@[j2].ctx.equiv(ctx),
            decreases t0.len() - si,
        {
            proof {
                lemma_equiv_sym(&inv_lead.ctx, ctx);
                lemma_equiv_trans(&t0@[si as int].ctx, ctx, &inv_lead.ctx);
            }
            let c = t0[si].mul(&inv_lead);
            proof {
                lemma_equiv_trans(&c.ctx, &t0@[si as int].ctx, ctx);
            }
            scaled.push(c);
            si += 1;
        }
        Ok(scaled)
    }

    /// Raw convolution that tolerates empty operands.
    fn mul_raw(ctx: &FieldContext, a: &Vec<FpElement>, b: &Vec<FpElement>) -> (r: Vec<FpElement>)
        requires
            ctx.wf(),
            ctx is Extension,
            forall|i: int| 0 <= i < a@.len() ==> (#[trigger] a@[i]).wf() && a@[i].ctx.equiv(ctx),
            forall|i: int| 0 <= i < b@.len() ==> (#[trigger] b@[i]).wf() && b@[i].ctx.equiv(ctx),
        ensures
            forall|i: int| 0 <= i < r@.len() ==> (#[trigger] r@[i]).wf() && r@[i].ctx.equiv(ctx),
    {
        if a.len() == 0 || b.len() == 0 {
            return Vec::new();
        }
        if a.len() > usize::MAX - b.len() {
            return Vec::new();
        }
        Self::poly_mul_vec(ctx, a, b)
    }

    /// Raw coefficient-wise subtraction over possibly different lengths.
    fn sub_raw(ctx: &FieldContext, a: &Vec<FpElement>, b: &Vec<FpElement>) -> (r: Vec<FpElement>)
        requires
            ctx.wf(),
            ctx is Extension,
            forall|i: int| 0 <= i < a@.len() ==> (#[trigger] a@[i]).wf() && a@[i].ctx.equiv(ctx),
            forall|i: int| 0 <= i < b@.len() ==> (#[trigger] b@[i]).wf() && b@[i].ctx.equiv(ctx),
        ensures
            forall|i: int| 0 <= i < r@.len() ==> (#[trigger] r@[i]).wf() && r@[i].ctx.equiv(ctx),
    {
        let len = if a.len() >= b.len() {
            a.len()
        } else {
            b.len()
        };
        let mut out: Vec<FpElement> = Vec::new();
        let mut i: usize = 0;
        while i < len
            invariant
                ctx.wf(),
                ctx is Extension,
                i <= len,
                out@.len() == i as nat,
                forall|j: int|
                    0 <= j < a@.len() ==> (#[trigger] a@[j]).wf() && a@[j].ctx.equiv(ctx),
                forall|j: int|
                    0 <= j < b@.len() ==> (#[trigger] b@[j]).wf() && b@[j].ctx.equiv(ctx),
                forall|j: int|
                    0 <= j < out@.len() ==> (#[trigger] out@[j]).wf() && out@[j].ctx.equiv(ctx),
            decreases len - i,
        {
            let av = if i < a.len() {
                a[i].clone()
            } else {
                FpElement::zero(ctx)
            };
            let bv = if i < b.len() {
                b[i].clone()
            } else {
                FpElement::zero(ctx)
            };
            proof {
                if i < a@.len() {
                    lemma_equiv_trans(&av.ctx, &a@[i as int].ctx, ctx);
                }
                if i < b@.len() {
                    lemma_equiv_trans(&bv.ctx, &b@[i as int].ctx, ctx);
                }
                lemma_equiv_sym(&bv.ctx, ctx);
                lemma_equiv_trans(&av.ctx, ctx, &bv.ctx);
            }
            let s = av.sub(&bv);
            proof {
                lemma_equiv_trans(&s.ctx, &av.ctx, ctx);
            }
            out.push(s);
            i += 1;
        }
        out
    }

    /// Multiplicative inverse by the extended Euclidean algorithm over
    /// F_p[x], checked: the candidate is accepted only if its product with
    /// this element reduces to the identity, so a successful result is a
    /// genuine inverse; a non-unit is reported as `NonInvertible`.
    pub fn inverse(&self) -> (r: Result<FpPolynomialElement, FieldError>)
        requires
            self.wf(),
        ensures
            r is Ok ==> {
                &&& r->Ok_0.wf()
                &&& r->Ok_0.ctx.equiv(&self.ctx)
                &&& fpp_mul_spec(self.pv(), r->Ok_0.pv(), self.irr(), self.p()) == fpp_one(self.k())
            },
            // In the degree-1 field inversion succeeds exactly when the
            // constant coefficient is a unit modulo p, and returns exactly
            // the prime-field inverse.
            self.k() == 1 ==> (r is Ok <==> gcd_nat(self.pv()[0], self.p()) == 1),
            (self.k() == 1 && r is Ok) ==> r->Ok_0.pv() == seq![
                crate::fp::inv_mod(self.pv()[0], self.p()),
            ],
            self.pv() == fpp_zero(self.k()) ==> r is Err,
            r is Err ==> r->Err_0 == FieldError::NonInvertible,
    {
        let k = self.ctx.ext_degree_exec();
        if k == 1 {
            proof {
                lemma_equiv_sym(&self.coeffs@[0].ctx, &self.ctx);
                assert(self.coeffs@[0].p() == self.p());
                assert(self.pv()[0] == big_nat(self.coeffs@[0].val));
            }
            let inv0 = match self.coeffs[0].inverse() {
                Ok(v) => v,
                Err(_) => {
                    return Err(FieldError::NonInvertible);
                },
            };
            proof {
                lemma_equiv_trans(&inv0.ctx, &self.coeffs@[0].ctx, &self.ctx);
            }
            let mut inv_coeffs: Vec<FpElement> = Vec::new();
            inv_coeffs.push(inv0);
            let r = FpPolynomialElement { ctx: self.ctx.clone(), coeffs: inv_coeffs };
            proof {
                assert(r.pv() =~= seq![big_nat(r.coeffs@[0].val)]);
                assert(self.pv() =~= seq![self.pv()[0]]);
                lemma_fpp_mul_singleton(self.pv()[0], r.pv()[0], self.irr(), self.p());
                assert(mul_mod(self.pv()[0], r.pv()[0], self.p()) == 1);
                assert(fpp_one(1) =~= seq![1nat]);
                // The zero polynomial has no unit coefficient.
                if self.pv() == fpp_zero(self.k()) {
                    assert(self.pv()[0] == 0);
                    lemma_small_mod(0, self.p());
                    assert(gcd_nat(0, self.p()) == gcd_nat(self.p(), 0nat % self.p()));
                    assert(false);
                }
            }
            return Ok(r);
        }
        proof {
            // The zero polynomial cannot pass the product check below.
            if self.pv() == fpp_zero(self.k()) {
                assert forall|b: Seq<nat>|
                    #[trigger] fpp_mul_spec(self.pv(), b, self.irr(), self.p()) != fpp_one(
                        self.k(),
                    ) by {
                    lemma_fpp_mul_zero(b, self.irr(), self.p());
                    let prod = fpp_mul_spec(self.pv(), b, self.irr(), self.p());
                    if prod == fpp_one(self.k()) {
                        assert(prod[0] == 1);
                        assert(prod[0] == 0);
                    }
                }
            }
        }
        let candidate_coeffs = match self.poly_inv_raw() {
            Ok(v) => v,
            Err(_) => {
                return Err(FieldError::NonInvertible);
            },
        };
        let candidate = Self::new(&self.ctx, candidate_coeffs);
        proof {
            lemma_equiv_sym(&candidate.ctx, &self.ctx);
        }
        let check = self.mul(&candidate);
        if check.is_one() {
            Ok(candidate)
        } else {
            Err(FieldError::NonInvertible)
        }
    }

    /// Field division: multiplication by the inverse of `other`.
    pub fn div(&self, other: &FpPolynomialElement) -> (r: Result<FpPolynomialElement, FieldError>)
        requires
            self.wf(),
            other.wf(),
            self.same_field(other),
        ensures
            r is Ok ==> {
                &&& r->Ok_0.wf()
                &&& r->Ok_0.ctx.equiv(&self.ctx)
                &&& exists|iv: Seq<nat>|
                    {
                        &&& #[trigger] fpp_mul_spec(other.pv(), iv, self.irr(), self.p())
                            == fpp_one(self.k())
                        &&& r->Ok_0.pv() == fpp_mul_spec(self.pv(), iv, self.irr(), self.p())
                    }
            },
            // In the degree-1 field division succeeds exactly when the
            // divisor's constant coefficient is a unit modulo p, and returns
            // exactly the prime-field quotient.
            self.k() == 1 ==> (r is Ok <==> gcd_nat(other.pv()[0], self.p()) == 1),
            (self.k() == 1 && r is Ok) ==> r->Ok_0.pv() == seq![
                mul_mod(
                    self.pv()[0],
                    crate::fp::inv_mod(other.pv()[0], self.p()),
                    self.p(),
                ),
            ],
            r is Err ==> r->Err_0 == FieldError::NonInvertible,
    {
        proof {
            if self.k() == 1 {
                assert(other.k() == 1 && other.p() == self.p());
            }
        }
        let inv = match other.inverse() {
            Ok(v) => v,
            Err(e) => {
                return Err(e);
            },
        };
        proof {
            lemma_equiv_sym(&self.ctx, &other.ctx);
            lemma_equiv_trans(&inv.ctx, &other.ctx, &self.ctx);
            lemma_equiv_sym(&inv.ctx, &self.ctx);
        }
        let q = self.mul(&inv);
        proof {
            assert(other.pv() == other.pv());
            assert(other.irr() == self.irr() && other.p() == self.p());
            assert(fpp_mul_spec(other.pv(), inv.pv(), self.irr(), self.p()) == fpp_one(self.k()));
            if self.k() == 1 {
                assert(self.pv() =~= seq![self.pv()[0]]);
                lemma_fpp_mul_singleton(self.pv()[0], inv.pv()[0], self.irr(), self.p());
                assert(inv.pv() =~= seq![inv.pv()[0]]);
            }
        }
        Ok(q)
    }

    /// Square-and-multiply exponentiation over the exponent's bits; not
    /// constant-time.
    pub fn pow(&self, exp: &BigUint) -> (r: FpPolynomialElement)
        requires
            self.wf(),
        ensures
            r.wf(),
            r.ctx.equiv(&self.ctx),
            r.pv() == fpp_ladder(self.pv(), big_nat(*exp), fpp_one(self.k()), self.irr(), self.p()),
    {
        let ghost irrv = self.irr();
        let ghost p = self.p();
        let mut base = self.clone();
        let mut result = Self::one(&self.ctx);
        let mut e_val = big_clone(exp);
        while !big_is_zero(&e_val)
            invariant
                self.wf(),
                base.wf(),
                result.wf(),
                base.ctx.equiv(&self.ctx),
                result.ctx.equiv(&self.ctx),
                base.irr() == irrv,
                result.irr() == irrv,
                base.p() == p,
                result.p() == p,
                irrv == self.irr(),
                p == self.p(),
                fpp_ladder(self.pv(), big_nat(*exp), fpp_one(self.k()), irrv, p) == fpp_ladder(
                    base.pv(),
                    big_nat(e_val),
                    result.pv(),
                    irrv,
                    p,
                ),
            decreases big_nat(e_val),
        {
            let ghost ev = big_nat(e_val);
            proof {
                crate::gf2::lemma_bit_at_zero(ev);
            }
            if big_bit(&e_val, 0) {
                proof {
                    lemma_equiv_sym(&result.ctx, &self.ctx);
                    lemma_equiv_trans(&base.ctx, &self.ctx, &result.ctx);
                    lemma_equiv_sym(&base.ctx, &result.ctx);
                }
                result = result.mul(&base);
            }
            base = base.mul(&base);
            e_val = big_shr(&e_val, 1);
            proof {
                vstd::arithmetic::power2::lemma2_to64();
                assert(big_nat(e_val) == ev / 2);
                lemma_equiv_trans(&base.ctx, &base.ctx, &self.ctx);
                lemma_equiv_trans(&result.ctx, &result.ctx, &self.ctx);
            }
        }
        result
    }

    /// Constant-time-style exponentiation: the exponent is reduced modulo
    /// `subgroup_order` and the ladder runs for exactly the bit length of
    /// `subgroup_order`, multiplying into a discarded accumulator on zero
    /// bits.
    pub fn pow_secure(&self, exp: &BigUint, subgroup_order: &BigUint) -> (r: FpPolynomialElement)
        requires
            self.wf(),
            big_nat(*subgroup_order) > 0,
        ensures
            r.wf(),
            r.ctx.equiv(&self.ctx),
            r.pv() == fpp_ladder(
                self.pv(),
                big_nat(*exp) % big_nat(*subgroup_order),
                fpp_one(self.k()),
                self.irr(),
                self.p(),
            ),
    {
        let ghost irrv = self.irr();
        let ghost p = self.p();
        let e_red = big_rem(exp, subgroup_order);
        let ghost er = big_nat(e_red);
        let nbits = big_bits(subgroup_order);
        let mut base = self.clone();
        let mut result = Self::one(&self.ctx);
        let mut dummy = Self::one(&self.ctx);
        let mut shift: u64 = 0;
        proof {
            vstd::arithmetic::power2::lemma2_to64();
            assert(er / pow2(0) == er);
        }
        while shift < nbits
            invariant
                self.wf(),
                base.wf(),
                result.wf(),
                dummy.wf(),
                base.ctx.equiv(&self.ctx),
                result.ctx.equiv(&self.ctx),
                dummy.ctx.equiv(&self.ctx),
                base.irr() == irrv,
                result.irr() == irrv,
                dummy.irr() == irrv,
                base.p() == p,
                result.p() == p,
                dummy.p() == p,
                irrv == self.irr(),
                p == self.p(),
                big_nat(e_red) == er,
                shift <= nbits,
                fpp_ladder(self.pv(), er, fpp_one(self.k()), irrv, p) == fpp_ladder(
                    base.pv(),
                    er / pow2(shift as nat),
                    result.pv(),
                    irrv,
                    p,
                ),
            decreases nbits - shift,
        {
            let ghost s = shift as nat;
            let ghost erem = er / pow2(s);
            if big_bit(&e_red, shift) {
                proof {
                    lemma_equiv_sym(&result.ctx, &self.ctx);
                    lemma_equiv_trans(&base.ctx, &self.ctx, &result.ctx);
                    lemma_equiv_sym(&base.ctx, &result.ctx);
                }
                result = result.mul(&base);
            } else {
                proof {
                    lemma_equiv_sym(&dummy.ctx, &self.ctx);
                    lemma_equiv_trans(&base.ctx, &self.ctx, &dummy.ctx);
                    lemma_equiv_sym(&base.ctx, &dummy.ctx);
                }
                dummy = dummy.mul(&base);
            }
            base = base.mul(&base);
            shift = shift + 1;
            proof {
                lemma_equiv_trans(&base.ctx, &base.ctx, &self.ctx);
                lemma_equiv_trans(&result.ctx, &result.ctx, &self.ctx);
                lemma_equiv_trans(&dummy.ctx, &dummy.ctx, &self.ctx);
                vstd::arithmetic::power2::lemma_pow2_pos(s);
                vstd::arithmetic::power2::lemma_pow2_unfold(s + 1);
                lemma_div_denominator(er as int, pow2(s) as int, 2);
                assert(erem / 2 == er / pow2(s + 1));
            }
        }
        proof {
            lemma_mod_division_less_than_divisor(big_nat(*exp) as int, big_nat(
                *subgroup_order,
            ) as int);
            crate::gf2::lemma_bitlen_mono(er, big_nat(*subgroup_order));
            crate::gf2::lemma_bitlen_bounds(er);
            if crate::gf2::bitlen(er) < nbits as nat {
                vstd::arithmetic::power2::lemma_pow2_strictly_increases(
                    crate::gf2::bitlen(er),
                    nbits as nat,
                );
            }
            vstd::arithmetic::div_mod::lemma_basic_div(er as int, pow2(nbits as nat) as int);
        }
        result
    }
}

impl Clone for FpPolynomialElement {
    /// The copy holds the same coefficients of the same field.
    fn clone(&self) -> (r: Self)
        ensures
            r.pv() == self.pv(),
            r.ctx.equiv(&self.ctx),
            self.wf() ==> r.wf(),
            r.p() == self.p(),
            r.irr() == self.irr(),
            r.k() == self.k(),
    {
        let mut out: Vec<FpElement> = Vec::new();
        let mut i: usize = 0;
        while i < self.coeffs.len()
            invariant
                i <= self.coeffs@.len(),
                out@.len() == i as nat,
                forall|j: int|
                    0 <= j < i as int ==> {
                        &&& big_nat((#[trigger] out@[j]).val) == big_nat(self.coeffs@[j].val)
                        &&& out@[j].ctx.equiv(&self.coeffs@[j].ctx)
                        &&& (out@[j].wf() <==> self.coeffs@[j].wf())
                    },
            decreases self.coeffs.len() - i,
        {
            out.push(self.coeffs[i].clone());
            i += 1;
        }
        let r = FpPolynomialElement { ctx: self.ctx.clone(), coeffs: out };
        proof {
            assert(r.pv() =~= self.pv());
            if self.wf() {
                assert forall|j: int| 0 <= j < r.coeffs@.len() implies (#[trigger] r.coeffs@[j]).wf()
                    && r.coeffs@[j].ctx.equiv(&r.ctx) by {
                    lemma_equiv_trans(&r.coeffs@[j].ctx, &self.coeffs@[j].ctx, &self.ctx);
                    lemma_equiv_sym(&r.ctx, &self.ctx);
                    lemma_equiv_trans(&r.coeffs@[j].ctx, &self.ctx, &r.ctx);
                }
            }
        }
        r
    }
}

} // verus!
