//! The shared description of one field instance: a prime modulus, an
//! irreducible binary polynomial, or a prime modulus together with an
//! irreducible polynomial over it.  Every field element carries a copy of its
//! context, and binary operations demand equivalent contexts.

use vstd::prelude::*;
use num::BigUint;
use crate::bigint::{big_nat, big_clone, big_eq, big_lt, big_from_u64, big_rem, big_bits, big_is_zero};
use crate::gf2::bitlen;
use crate::FieldError;

verus! {

/// One of the three field families, tagged so that impossible states (a
/// context that is both binary and an extension) cannot be represented.
#[derive(Debug)]
pub enum FieldContext {
    /// The prime field of integers modulo `p`.
    Prime { p: BigUint },
    /// GF(2^m): bit `i` of `irreducible` is the coefficient of `x^i`; the
    /// degree `m` is the index of its highest set bit.
    Binary { irreducible_binary_poly: BigUint },
    /// F_{p^k}: polynomials over F_p reduced modulo `irreducible`, whose
    /// coefficients are stored low-to-high with leading coefficient 1.
    Extension { p: BigUint, irreducible_poly: Vec<BigUint> },
}

impl FieldContext {
    /// The characteristic-side modulus: `p` for the prime and extension
    /// families, 2 for the binary family.
    pub open spec fn prime_nat(&self) -> nat {
        match self {
            FieldContext::Prime { p } => big_nat(*p),
            FieldContext::Binary { .. } => 2,
            FieldContext::Extension { p, .. } => big_nat(*p),
        }
    }

    /// The binary irreducible polynomial, as a natural number.
    pub open spec fn bin_irr(&self) -> nat {
        match self {
            FieldContext::Binary { irreducible_binary_poly } => big_nat(*irreducible_binary_poly),
            _ => 0,
        }
    }

    /// The coefficients of the extension-field irreducible polynomial,
    /// low-to-high.
    pub open spec fn irr_seq(&self) -> Seq<nat> {
        match self {
            FieldContext::Extension { irreducible_poly, .. } => irreducible_poly@.map_values(
                |b: BigUint| big_nat(b),
            ),
            _ => Seq::empty(),
        }
    }

    /// The extension degree `k`: one less than the coefficient count.
    pub open spec fn ext_degree(&self) -> nat {
        (self.irr_seq().len() - 1) as nat
    }

    /// Well-formedness established by the constructors: a modulus of at least
    /// 2, a binary polynomial of degree at least 1, and a monic extension
    /// polynomial of degree at least 1 with reduced coefficients.
    pub open spec fn wf(&self) -> bool {
        match self {
            FieldContext::Prime { p } => big_nat(*p) >= 2,
            FieldContext::Binary { irreducible_binary_poly } => big_nat(*irreducible_binary_poly) >= 2,
            FieldContext::Extension { p, irreducible_poly } => {
                &&& big_nat(*p) >= 2
                &&& self.irr_seq().len() >= 2
                &&& self.irr_seq().len() <= usize::MAX / 2
                &&& self.irr_seq().last() == 1
                &&& forall|i: int|
                    0 <= i < self.irr_seq().len() ==> #[trigger] self.irr_seq()[i] < big_nat(*p)
            },
        }
    }

    /// Two contexts describe the same field instance.
    pub open spec fn equiv(&self, other: &FieldContext) -> bool {
        match (self, other) {
            (FieldContext::Prime { p: a }, FieldContext::Prime { p: b }) => big_nat(*a) == big_nat(
                *b,
            ),
            (
                FieldContext::Binary { irreducible_binary_poly: a },
                FieldContext::Binary { irreducible_binary_poly: b },
            ) => big_nat(*a) == big_nat(*b),
            (
                FieldContext::Extension { p: pa, irreducible_poly: _ },
                FieldContext::Extension { p: pb, irreducible_poly: _ },
            ) => big_nat(*pa) == big_nat(*pb) && self.irr_seq() == other.irr_seq(),
            _ => false,
        }
    }

    /// Builds a prime-field context; the modulus must be at least 2 (primality
    /// itself is the caller's guarantee).
    pub fn new_prime(p: BigUint) -> (r: Result<FieldContext, FieldError>)
        ensures
            r is Ok <==> big_nat(p) >= 2,
            r is Ok ==> {
                &&& r->Ok_0.wf()
                &&& r->Ok_0 is Prime
                &&& r->Ok_0.prime_nat() == big_nat(p)
            },
            r is Err ==> r->Err_0 == FieldError::InvalidField,
    {
        let two = big_from_u64(2);
        if big_lt(&p, &two) {
            Err(FieldError::InvalidField)
        } else {
            Ok(FieldContext::Prime { p })
        }
    }

    /// Builds a GF(2^m) context from the irreducible polynomial's bit vector;
    /// the polynomial must have degree at least 1.
    pub fn new_binary(irreducible_binary_poly: BigUint) -> (r: Result<FieldContext, FieldError>)
        ensures
            r is Ok <==> big_nat(irreducible_binary_poly) >= 2,
            r is Ok ==> {
                &&& r->Ok_0.wf()
                &&& r->Ok_0 is Binary
                &&& r->Ok_0.bin_irr() == big_nat(irreducible_binary_poly)
            },
            r is Err ==> r->Err_0 == FieldError::InvalidField,
    {
        let two = big_from_u64(2);
        if big_lt(&irreducible_binary_poly, &two) {
            Err(FieldError::InvalidField)
        } else {
            Ok(FieldContext::Binary { irreducible_binary_poly: irreducible_binary_poly })
        }
    }

    /// Builds an F_{p^k} context.  The coefficients are given low-to-high and
    /// are reduced modulo `p`; the reduced polynomial must be monic of degree
    /// at least 1, else the context is rejected as malformed.
    pub fn new_poly(p: BigUint, irreducible_poly: Vec<BigUint>) -> (r: Result<
        FieldContext,
        FieldError,
    >)
        ensures
            r is Ok <==> {
                &&& big_nat(p) >= 2
                &&& irreducible_poly@.len() >= 2
                &&& irreducible_poly@.len() <= usize::MAX / 2
                &&& big_nat(irreducible_poly@.last()) % big_nat(p) == 1
            },
            r is Ok ==> {
                &&& r->Ok_0.wf()
                &&& r->Ok_0 is Extension
                &&& r->Ok_0.prime_nat() == big_nat(p)
                &&& r->Ok_0.irr_seq() == irreducible_poly@.map_values(
                    |b: BigUint| big_nat(b) % big_nat(p),
                )
            },
            r is Err ==> r->Err_0 == FieldError::InvalidField,
    {
        let two = big_from_u64(2);
        if big_lt(&p, &two) || irreducible_poly.len() < 2 || irreducible_poly.len() > usize::MAX / 2 {
            return Err(FieldError::InvalidField);
        }
        let mut reduced: Vec<BigUint> = Vec::new();
        let mut i: usize = 0;
        while i < irreducible_poly.len()
            invariant
                big_nat(p) >= 2,
                i <= irreducible_poly.len(),
                reduced@.len() == i as nat,
                forall|j: int|
                    0 <= j < i as int ==> big_nat(#[trigger] reduced@[j]) == big_nat(
                        irreducible_poly@[j],
                    ) % big_nat(p),
            decreases irreducible_poly.len() - i,
        {
            reduced.push(big_rem(&irreducible_poly[i], &p));
            i += 1;
        }
        let one = big_from_u64(1);
        if !big_eq(&reduced[reduced.len() - 1], &one) {
            return Err(FieldError::InvalidField);
        }
        let ctx = FieldContext::Extension { p, irreducible_poly: reduced };
        proof {
            assert(ctx.irr_seq() =~= irreducible_poly@.map_values(
                |b: BigUint| big_nat(b) % big_nat(p),
            ));
        }
        Ok(ctx)
    }

    /// The stored modulus of a prime or extension context.
    pub fn prime_ref(&self) -> (r: &BigUint)
        requires
            self is Prime || self is Extension,
        ensures
            big_nat(*r) == self.prime_nat(),
    {
        match self {
            FieldContext::Prime { p } => p,
            FieldContext::Extension { p, .. } => p,
            FieldContext::Binary { irreducible_binary_poly } => irreducible_binary_poly,
        }
    }

    /// The extension degree `k` of an extension context.
    pub fn ext_degree_exec(&self) -> (r: usize)
        requires
            self is Extension,
            self.wf(),
        ensures
            r as nat == self.ext_degree(),
            r >= 1,
    {
        match self {
            FieldContext::Extension { irreducible_poly, .. } => irreducible_poly.len() - 1,
            _ => 1,
        }
    }

    /// One coefficient of the extension context's irreducible polynomial.
    pub fn irr_coeff(&self, i: usize) -> (r: &BigUint)
        requires
            self is Extension,
            i < self.irr_seq().len(),
        ensures
            big_nat(*r) == self.irr_seq()[i as int],
    {
        match self {
            FieldContext::Extension { irreducible_poly, .. } => &irreducible_poly[i],
            FieldContext::Prime { p } => p,
            FieldContext::Binary { irreducible_binary_poly } => irreducible_binary_poly,
        }
    }


    /// Whether two contexts describe the same field instance, decided by
    /// value.
    pub fn same_instance(&self, other: &FieldContext) -> (r: bool)
        ensures
            r <==> self.equiv(other),
    {
        match (self, other) {
            (FieldContext::Prime { p: a }, FieldContext::Prime { p: b }) => big_eq(a, b),
            (
                FieldContext::Binary { irreducible_binary_poly: a },
                FieldContext::Binary { irreducible_binary_poly: b },
            ) => big_eq(a, b),
            (
                FieldContext::Extension { p: pa, irreducible_poly: ia },
                FieldContext::Extension { p: pb, irreducible_poly: ib },
            ) => {
                if !big_eq(pa, pb) || ia.len() != ib.len() {
                    proof {
                        assert(self.irr_seq().len() == ia@.len());
                        assert(other.irr_seq().len() == ib@.len());
                    }
                    false
                } else {
                    let mut i: usize = 0;
                    let mut same = true;
                    while i < ia.len()
                        invariant
                            i <= ia@.len(),
                            ia@.len() == ib@.len(),
                            same ==> forall|j: int|
                                0 <= j < i as int ==> big_nat(ia@[j]) == big_nat(ib@[j]),
                            !same ==> exists|j: int|
                                0 <= j < i as int && big_nat(ia@[j]) != big_nat(ib@[j]),
                        decreases ia.len() - i,
                    {
                        if !big_eq(&ia[i], &ib[i]) {
                            same = false;
                            proof {
                                assert(big_nat(ia@[i as int]) != big_nat(ib@[i as int]));
                            }
                        }
                        i += 1;
                    }
                    proof {
                        if same {
                            assert(self.irr_seq() =~= other.irr_seq());
                        } else {
                            let j = choose|j: int|
                                0 <= j < ia@.len() && big_nat(ia@[j]) != big_nat(ib@[j]);
                            assert(self.irr_seq()[j] == big_nat(ia@[j]));
                            assert(other.irr_seq()[j] == big_nat(ib@[j]));
                            assert(self.irr_seq() != other.irr_seq());
                        }
                    }
                    same
                }
            },
            _ => false,
        }
    }

    /// The stored irreducible polynomial of a binary context.
    pub fn bin_irr_ref(&self) -> (r: &BigUint)
        requires
            self is Binary,
        ensures
            big_nat(*r) == self.bin_irr(),
    {
        match self {
            FieldContext::Binary { irreducible_binary_poly } => irreducible_binary_poly,
            FieldContext::Prime { p } => p,
            FieldContext::Extension { p, .. } => p,
        }
    }

    /// Whether this context describes GF(2^m).
    pub fn is_binary(&self) -> (r: bool)
        ensures
            r <==> self is Binary,
    {
        match self {
            FieldContext::Binary { .. } => true,
            _ => false,
        }
    }

    /// Whether this context describes an extension field F_{p^k}.
    pub fn is_poly(&self) -> (r: bool)
        ensures
            r <==> self is Extension,
    {
        match self {
            FieldContext::Extension { .. } => true,
            _ => false,
        }
    }

    /// The degree of the irreducible polynomial: `m` for a binary context,
    /// `k` for an extension context, and 1 for a plain prime field.
    pub fn get_irreducible_poly_degree(&self) -> (r: u64)
        requires
            self.wf(),
            !(self is Extension) || self.irr_seq().len() <= u64::MAX,
        ensures
            self is Binary ==> r as nat == (bitlen(self.bin_irr()) - 1) as nat,
            self is Extension ==> r as nat == self.ext_degree(),
            self is Prime ==> r == 1,
    {
        match self {
            FieldContext::Binary { irreducible_binary_poly } => {
                proof {
                    crate::gf2::lemma_bitlen_pos(self.bin_irr());
                }
                big_bits(irreducible_binary_poly) - 1
            },
            FieldContext::Extension { irreducible_poly, .. } => (irreducible_poly.len() - 1) as u64,
            FieldContext::Prime { .. } => 1,
        }
    }
}

impl Clone for FieldContext {
    /// The copy describes the same field instance.
    fn clone(&self) -> (r: Self)
        ensures
            r.equiv(self),
            r.wf() <==> self.wf(),
            r.prime_nat() == self.prime_nat(),
            r.bin_irr() == self.bin_irr(),
            r.irr_seq() == self.irr_seq(),
            r is Prime <==> self is Prime,
            r is Binary <==> self is Binary,
            r is Extension <==> self is Extension,
    {
        match self {
            FieldContext::Prime { p } => FieldContext::Prime { p: big_clone(p) },
            FieldContext::Binary { irreducible_binary_poly } => FieldContext::Binary {
                irreducible_binary_poly: big_clone(irreducible_binary_poly),
            },
            FieldContext::Extension { p, irreducible_poly } => {
                let mut coeffs: Vec<BigUint> = Vec::new();
                let mut i: usize = 0;
                while i < irreducible_poly.len()
                    invariant
                        i <= irreducible_poly.len(),
                        coeffs@.len() == i as nat,
                        forall|j: int|
                            0 <= j < i as int ==> big_nat(#[trigger] coeffs@[j]) == big_nat(
                                irreducible_poly@[j],
                            ),
                    decreases irreducible_poly.len() - i,
                {
                    coeffs.push(big_clone(&irreducible_poly[i]));
                    i += 1;
                }
                let r = FieldContext::Extension { p: big_clone(p), irreducible_poly: coeffs };
                proof {
                    assert(r.irr_seq() =~= self.irr_seq());
                }
                r
            },
        }
    }
}

/// Context equivalence is symmetric.
pub proof fn lemma_equiv_sym(a: &FieldContext, b: &FieldContext)
    requires
        a.equiv(b),
    ensures
        b.equiv(a),
{
}

/// Context equivalence is transitive.
pub proof fn lemma_equiv_trans(a: &FieldContext, b: &FieldContext, c: &FieldContext)
    requires
        a.equiv(b),
        b.equiv(c),
    ensures
        a.equiv(c),
{
}

/// The degree of a binary polynomial: the index of its highest set bit, and
/// 0 for the zero polynomial.
pub fn get_binary_poly_degree(a: &BigUint) -> (r: u64)
    ensures
        big_nat(*a) == 0 ==> r == 0,
        big_nat(*a) > 0 ==> r as nat == (bitlen(big_nat(*a)) - 1) as nat,
{
    if big_is_zero(a) {
        return 0;
    }
    proof {
        crate::gf2::lemma_bitlen_pos(big_nat(*a));
    }
    big_bits(a) - 1
}

} // verus!
