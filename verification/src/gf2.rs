//! The mathematical model of GF(2) polynomials packed into natural numbers:
//! bit `i` of the number is the coefficient of `x^i`.  Addition is bitwise
//! exclusive or, multiplication is the carry-less product, and the degree is
//! read off the bit length.

use vstd::prelude::*;
use vstd::arithmetic::power2::pow2;

verus! {

/// Number of bits of `n`: zero for zero, otherwise one more than the degree
/// of the polynomial that `n` encodes.
pub open spec fn bitlen(n: nat) -> nat
    decreases n,
{
    if n == 0 {
        0
    } else {
        1 + bitlen(n / 2)
    }
}

/// Bitwise exclusive or of two naturals: coefficient-wise sum in GF(2).
pub open spec fn nx(a: nat, b: nat) -> nat
    decreases a + b,
{
    if a == 0 && b == 0 {
        0
    } else {
        (if a % 2 == b % 2 { 0nat } else { 1nat }) + 2 * nx(a / 2, b / 2)
    }
}

/// Carry-less product: the product of the GF(2) polynomials that `a` and `b`
/// encode.
pub open spec fn clmul(a: nat, b: nat) -> nat
    decreases a,
{
    if a == 0 {
        0
    } else {
        nx(if a % 2 == 1 { b } else { 0nat }, 2 * clmul(a / 2, b))
    }
}

/// Bit `i` of `n`.
pub open spec fn bit_at(n: nat, i: nat) -> bool {
    (n / pow2(i)) % 2 == 1
}

/// The lowest bit is the parity.
pub proof fn lemma_bit_at_zero(n: nat)
    ensures
        bit_at(n, 0) <==> n % 2 == 1,
{
    assert(pow2(0) == 1) by {
        vstd::arithmetic::power::lemma_pow0(2);
    };
    assert(n / 1 == n);
}

pub proof fn lemma_bitlen_pos(n: nat)
    ensures
        n > 0 ==> bitlen(n) >= 1,
        n == 0 ==> bitlen(n) == 0,
{
}

/// `bitlen` pins the value between consecutive powers of two.
pub proof fn lemma_bitlen_bounds(n: nat)
    ensures
        n < pow2(bitlen(n)),
        n > 0 ==> pow2((bitlen(n) - 1) as nat) <= n,
    decreases n,
{
    if n == 0 {
        assert(pow2(0) == 1) by {
            vstd::arithmetic::power::lemma_pow0(2);
        };
    } else {
        lemma_bitlen_bounds(n / 2);
        vstd::arithmetic::power2::lemma_pow2_unfold(bitlen(n));
        assert(pow2(bitlen(n)) == 2 * pow2((bitlen(n) - 1) as nat));
        assert(n < 2 * pow2(bitlen(n / 2)));
        if n / 2 == 0 {
            assert(pow2(0) == 1) by {
                vstd::arithmetic::power::lemma_pow0(2);
            };
        } else {
            vstd::arithmetic::power2::lemma_pow2_unfold(bitlen(n / 2));
        }
    }
}

pub proof fn lemma_bitlen_mono(a: nat, b: nat)
    requires
        a <= b,
    ensures
        bitlen(a) <= bitlen(b),
    decreases b,
{
    if a > 0 {
        lemma_bitlen_mono(a / 2, b / 2);
    }
}

pub proof fn lemma_nx_zero(a: nat)
    ensures
        nx(a, 0) == a,
        nx(0, a) == a,
    decreases a,
{
    if a != 0 {
        lemma_nx_zero(a / 2);
    }
}

pub proof fn lemma_nx_self(a: nat)
    ensures
        nx(a, a) == 0,
    decreases a,
{
    if a != 0 {
        lemma_nx_self(a / 2);
    }
}

pub proof fn lemma_nx_comm(a: nat, b: nat)
    ensures
        nx(a, b) == nx(b, a),
    decreases a + b,
{
    if !(a == 0 && b == 0) {
        lemma_nx_comm(a / 2, b / 2);
    }
}

pub proof fn lemma_nx_assoc(a: nat, b: nat, c: nat)
    ensures
        nx(nx(a, b), c) == nx(a, nx(b, c)),
    decreases a + b + c,
{
    if !(a == 0 && b == 0 && c == 0) {
        lemma_nx_assoc(a / 2, b / 2, c / 2);
    }
}

/// A bit plus a doubled value interleave without interference.
pub proof fn lemma_nx_parts(c: nat, m: nat)
    requires
        c < 2,
    ensures
        nx(c, 2 * m) == c + 2 * m,
{
    lemma_nx_zero(m);
}

pub proof fn lemma_nx_double(a: nat, b: nat)
    ensures
        nx(2 * a, 2 * b) == 2 * nx(a, b),
{
}

/// Exclusive or is cancellative: a zero sum means equal operands.
pub proof fn lemma_nx_inj(a: nat, b: nat)
    requires
        nx(a, b) == 0,
    ensures
        a == b,
    decreases a + b,
{
    if !(a == 0 && b == 0) {
        lemma_nx_inj(a / 2, b / 2);
    }
}

/// The sum's degree never exceeds the larger operand's degree.
pub proof fn lemma_nx_bitlen_le(a: nat, b: nat)
    ensures
        bitlen(nx(a, b)) <= bitlen(a) || bitlen(nx(a, b)) <= bitlen(b),
        bitlen(a) <= bitlen(b) ==> bitlen(nx(a, b)) <= bitlen(b),
        bitlen(b) <= bitlen(a) ==> bitlen(nx(a, b)) <= bitlen(a),
    decreases a + b,
{
    if !(a == 0 && b == 0) {
        lemma_nx_bitlen_le(a / 2, b / 2);
    }
}

/// Equal degrees cancel: the sum's degree strictly drops.
pub proof fn lemma_nx_cancel_top(a: nat, b: nat)
    requires
        a > 0,
        b > 0,
        bitlen(a) == bitlen(b),
    ensures
        bitlen(nx(a, b)) < bitlen(a),
    decreases a,
{
    assert(bitlen(0nat) == 0);
    if a / 2 == 0 {
        // Both values are exactly 1.
        assert(bitlen(a) == 1);
        if b / 2 != 0 {
            assert(bitlen(b) == 1 + bitlen(b / 2));
            assert(bitlen(b / 2) >= 1);
            assert(false);
        }
        lemma_nx_self(1);
    } else {
        assert(bitlen(a) == 1 + bitlen(a / 2));
        assert(bitlen(a / 2) >= 1);
        if b / 2 == 0 {
            assert(bitlen(b) == 1);
            assert(false);
        }
        lemma_nx_cancel_top(a / 2, b / 2);
        let m = nx(a / 2, b / 2);
        assert(nx(a, b) == (if a % 2 == b % 2 { 0nat } else { 1nat }) + 2 * m);
        if m == 0 {
            assert(bitlen(nx(a, b)) <= 1);
        } else {
            assert(bitlen(nx(a, b)) == 1 + bitlen(m));
        }
    }
}

/// A smaller-degree summand leaves the top bit alone.
pub proof fn lemma_nx_keep_top(a: nat, b: nat)
    requires
        bitlen(b) < bitlen(a),
    ensures
        bitlen(nx(a, b)) == bitlen(a),
        nx(a, b) > 0,
    decreases a,
{
    if b == 0 {
        lemma_nx_zero(a);
    } else {
        lemma_nx_keep_top(a / 2, b / 2);
    }
}

pub proof fn lemma_clmul_zero_right(a: nat)
    ensures
        clmul(a, 0) == 0,
    decreases a,
{
    if a != 0 {
        lemma_clmul_zero_right(a / 2);
        lemma_nx_zero(0);
    }
}

pub proof fn lemma_clmul_one(b: nat)
    ensures
        clmul(1, b) == b,
{
    assert(clmul(0, b) == 0);
    lemma_nx_zero(b);
}

pub proof fn lemma_clmul_one_right(a: nat)
    ensures
        clmul(a, 1) == a,
    decreases a,
{
    if a != 0 {
        lemma_clmul_one_right(a / 2);
        lemma_nx_parts(a % 2, a / 2);
    }
}

/// Doubling the right factor doubles the carry-less product.
pub proof fn lemma_clmul_two_right(a: nat, b: nat)
    ensures
        clmul(a, 2 * b) == 2 * clmul(a, b),
    decreases a,
{
    if a != 0 {
        lemma_clmul_two_right(a / 2, b);
        let t: nat = if a % 2 == 1 {
            b
        } else {
            0
        };
        let t2: nat = if a % 2 == 1 {
            2 * b
        } else {
            0
        };
        lemma_nx_double(t, clmul(a / 2, b));
        assert(clmul(a, 2 * b) == nx(t2, 2 * clmul(a / 2, 2 * b)));
        assert(2 * clmul(a / 2, 2 * b) == 2 * (2 * clmul(a / 2, b)));
        assert(nx(t2, 2 * (2 * clmul(a / 2, b))) == 2 * nx(t, 2 * clmul(a / 2, b))) by {
            lemma_nx_double(t, 2 * clmul(a / 2, b));
        };
    }
}

/// Multiplying by a power of two on the left is a plain shift.
pub proof fn lemma_clmul_pow2_left(s: nat, b: nat)
    ensures
        clmul(pow2(s), b) == pow2(s) * b,
    decreases s,
{
    vstd::arithmetic::power2::lemma_pow2_pos(s);
    if s == 0 {
        assert(pow2(0) == 1) by {
            vstd::arithmetic::power::lemma_pow0(2);
        };
        lemma_clmul_one(b);
        assert(1 * b == b) by (nonlinear_arith);
    } else {
        vstd::arithmetic::power2::lemma_pow2_unfold(s);
        lemma_clmul_pow2_left((s - 1) as nat, b);
        let h = pow2((s - 1) as nat);
        assert(pow2(s) == 2 * h);
        assert(2 * h > 0);
        assert((2 * h) % 2 == 0 && (2 * h) / 2 == h);
        assert(clmul(2 * h, b) == nx(0, 2 * clmul(h, b)));
        lemma_nx_zero(2 * clmul(h, b));
        assert(2 * (h * b) == (2 * h) * b) by (nonlinear_arith);
    }
}

/// The carry-less product distributes over exclusive or in the left factor.
pub proof fn lemma_clmul_dist_left(x: nat, y: nat, b: nat)
    ensures
        clmul(nx(x, y), b) == nx(clmul(x, b), clmul(y, b)),
    decreases x + y,
{
    if x == 0 && y == 0 {
    } else {
        lemma_clmul_dist_left(x / 2, y / 2, b);
        let n = nx(x, y);
        let cx: nat = if x % 2 == 1 {
            b
        } else {
            0
        };
        let cy: nat = if y % 2 == 1 {
            b
        } else {
            0
        };
        let cn: nat = if n % 2 == 1 {
            b
        } else {
            0
        };
        assert(n % 2 == if x % 2 == y % 2 {
            0nat
        } else {
            1nat
        });
        assert(n / 2 == nx(x / 2, y / 2));
        if n == 0 {
            lemma_nx_inj(x, y);
            lemma_nx_self(clmul(x, b));
        } else {
            assert(clmul(n, b) == nx(cn, 2 * clmul(n / 2, b)));
            assert(clmul(n / 2, b) == nx(clmul(x / 2, b), clmul(y / 2, b)));
            lemma_nx_double(clmul(x / 2, b), clmul(y / 2, b));
            // cn == nx(cx, cy): equal bits cancel, differing bits leave b.
            if x % 2 == y % 2 {
                if x % 2 == 1 {
                    lemma_nx_self(b);
                } else {
                    lemma_nx_zero(0);
                }
            } else {
                lemma_nx_zero(b);
                lemma_nx_comm(b, 0);
            }
            assert(cn == nx(cx, cy));
            // Shuffle nx(nx(cx, cy), nx(u, v)) into nx(nx(cx, u), nx(cy, v)).
            let u = 2 * clmul(x / 2, b);
            let v = 2 * clmul(y / 2, b);
            lemma_nx_shuffle(cx, cy, u, v);
            assert(clmul(n, b) == nx(nx(cx, cy), nx(u, v)));
            assert(clmul(x, b) == nx(cx, u));
            assert(clmul(y, b) == nx(cy, v));
        }
    }
}

/// `nx(nx(a, b), nx(c, d)) == nx(nx(a, c), nx(b, d))`.
pub proof fn lemma_nx_shuffle(a: nat, b: nat, c: nat, d: nat)
    ensures
        nx(nx(a, b), nx(c, d)) == nx(nx(a, c), nx(b, d)),
{
    lemma_nx_assoc(nx(a, b), c, d);
    lemma_nx_assoc(a, b, c);
    lemma_nx_comm(b, c);
    lemma_nx_assoc(a, c, b);
    lemma_nx_assoc(nx(a, c), b, d);
}

/// Degrees add under the carry-less product.
pub proof fn lemma_clmul_bitlen(a: nat, b: nat)
    requires
        a > 0,
        b > 0,
    ensures
        clmul(a, b) > 0,
        bitlen(clmul(a, b)) == bitlen(a) + bitlen(b) - 1,
    decreases a,
{
    lemma_bitlen_pos(a);
    lemma_bitlen_pos(b);
    if a / 2 == 0 {
        // a == 1.
        lemma_clmul_one(b);
        assert(bitlen(0nat) == 0);
        assert(bitlen(a) == 1);
    } else {
        lemma_clmul_bitlen(a / 2, b);
        let m = clmul(a / 2, b);
        let c: nat = if a % 2 == 1 {
            b
        } else {
            0
        };
        assert(clmul(a, b) == nx(c, 2 * m));
        assert(bitlen(2 * m) == 1 + bitlen(m));
        lemma_bitlen_pos(c);
        assert(bitlen(c) <= bitlen(b));
        assert(bitlen(2 * m) == bitlen(a / 2) + bitlen(b));
        assert(bitlen(c) < bitlen(2 * m));
        lemma_nx_comm(c, 2 * m);
        lemma_nx_keep_top(2 * m, c);
    }
}

/// `q` and `r` witness the division of `a` by the polynomial `m`.
pub open spec fn reduces_to(a: nat, m: nat, q: nat, r: nat) -> bool {
    a == nx(clmul(q, m), r) && bitlen(r) < bitlen(m)
}

/// Some quotient pairs with `r` for the division of `a` by `m`.
pub open spec fn has_remainder(a: nat, m: nat, r: nat) -> bool {
    exists|q: nat| #[trigger] reduces_to(a, m, q, r)
}

/// The remainder of GF(2)-polynomial division of `a` by `m`; meaningful for
/// `m >= 2`, where it exists and is unique.
pub open spec fn pmod(a: nat, m: nat) -> nat {
    choose|r: nat| #[trigger] has_remainder(a, m, r)
}

/// Every value reduces: GF(2)-polynomial division exists.
pub proof fn lemma_pmod_exists(a: nat, m: nat)
    requires
        m >= 2,
    ensures
        exists|q: nat, r: nat| #[trigger] reduces_to(a, m, q, r),
    decreases bitlen(a),
{
    lemma_bitlen_pos(m);
    if bitlen(a) < bitlen(m) {
        assert(reduces_to(a, m, 0, a)) by {
            lemma_nx_zero(a);
        };
    } else {
        lemma_bitlen_mono(2, m);
        assert(a > 0) by {
            lemma_bitlen_pos(a);
            if a == 0 {
                assert(bitlen(a) == 0);
            }
        };
        let s = (bitlen(a) - bitlen(m)) as nat;
        let shifted = pow2(s) * m;
        vstd::arithmetic::power2::lemma_pow2_pos(s);
        assert(shifted > 0) by (nonlinear_arith)
            requires
                shifted == pow2(s) * m,
                pow2(s) > 0,
                m > 0,
        ;
        lemma_bitlen_shl(m, s);
        assert(bitlen(shifted) == bitlen(a));
        let a2 = nx(a, shifted);
        lemma_nx_cancel_top(a, shifted);
        lemma_pmod_exists(a2, m);
        let (q2, r2) = choose|q: nat, r: nat| #[trigger] reduces_to(a2, m, q, r);
        // a == nx(a2, shifted), and shifted == clmul(pow2(s), m).
        lemma_nx_assoc(a, shifted, shifted);
        lemma_nx_self(shifted);
        lemma_nx_zero(a);
        assert(nx(a2, shifted) == a);
        lemma_clmul_pow2_left(s, m);
        lemma_clmul_dist_left(q2, pow2(s), m);
        // nx(clmul(q2, m), nx(r2, shifted))  rearranges to  nx(clmul(nx(q2, 2^s), m), r2).
        lemma_nx_assoc(clmul(q2, m), r2, shifted);
        lemma_nx_comm(r2, shifted);
        lemma_nx_assoc(clmul(q2, m), shifted, r2);
        assert(a == nx(nx(clmul(q2, m), shifted), r2));
        assert(reduces_to(a, m, nx(q2, pow2(s)), r2));
    }
}

/// Shifting a value's degree up by `s` raises the bit length by `s`.
pub proof fn lemma_bitlen_shl(a: nat, s: nat)
    requires
        a > 0,
    ensures
        pow2(s) * a > 0,
        bitlen(pow2(s) * a) == bitlen(a) + s,
    decreases s,
{
    vstd::arithmetic::power2::lemma_pow2_pos(s);
    if s == 0 {
        assert(pow2(0) == 1) by {
            vstd::arithmetic::power::lemma_pow0(2);
        };
        assert(1 * a == a) by (nonlinear_arith);
    } else {
        vstd::arithmetic::power2::lemma_pow2_unfold(s);
        lemma_bitlen_shl(a, (s - 1) as nat);
        let h = pow2((s - 1) as nat) * a;
        assert(pow2(s) * a == 2 * h) by (nonlinear_arith)
            requires
                pow2(s) == 2 * pow2((s - 1) as nat),
                h == pow2((s - 1) as nat) * a,
        ;
        assert(bitlen(2 * h) == 1 + bitlen(h));
    }
}

/// GF(2)-polynomial division is unique: equal values with reduced remainders
/// have equal quotients and remainders.
pub proof fn lemma_pmod_unique(a: nat, m: nat, q1: nat, r1: nat, q2: nat, r2: nat)
    requires
        m >= 2,
        reduces_to(a, m, q1, r1),
        reduces_to(a, m, q2, r2),
    ensures
        q1 == q2,
        r1 == r2,
{
    if q1 == q2 {
        // Cancel the common summand.
        lemma_nx_cancel(clmul(q1, m), r1, r2);
    } else {
        // The quotient difference contributes at least degree of m.
        let dq = nx(q1, q2);
        assert(dq != 0) by {
            if dq == 0 {
                lemma_nx_inj(q1, q2);
            }
        };
        // nx both representations: clmul(dq, m) == nx(r1, r2).
        lemma_nx_shuffle(clmul(q1, m), r1, clmul(q2, m), r2);
        lemma_nx_self_eq(nx(clmul(q1, m), r1), nx(clmul(q2, m), r2));
        assert(nx(nx(clmul(q1, m), clmul(q2, m)), nx(r1, r2)) == 0);
        lemma_clmul_dist_left(q1, q2, m);
        assert(nx(clmul(dq, m), nx(r1, r2)) == 0);
        lemma_nx_inj(clmul(dq, m), nx(r1, r2));
        lemma_bitlen_pos(dq);
        lemma_bitlen_pos(m);
        lemma_clmul_bitlen(dq, m);
        lemma_nx_bitlen_le(r1, r2);
        assert(bitlen(nx(r1, r2)) < bitlen(m));
        assert(bitlen(clmul(dq, m)) >= bitlen(m));
        assert(false);
    }
}

/// Two equal values xor to zero.
proof fn lemma_nx_self_eq(a: nat, b: nat)
    requires
        a == b,
    ensures
        nx(a, b) == 0,
{
    lemma_nx_self(a);
}

/// Xor-cancellation: equal sums with a common left summand have equal right
/// summands.
proof fn lemma_nx_cancel(c: nat, r1: nat, r2: nat)
    requires
        nx(c, r1) == nx(c, r2),
    ensures
        r1 == r2,
{
    lemma_nx_self_eq(nx(c, r1), nx(c, r2));
    lemma_nx_shuffle(c, r1, c, r2);
    lemma_nx_self(c);
    lemma_nx_zero(nx(r1, r2));
    assert(nx(r1, r2) == 0);
    lemma_nx_inj(r1, r2);
}

/// The chosen remainder really is a remainder.
pub proof fn lemma_pmod_props(a: nat, m: nat)
    requires
        m >= 2,
    ensures
        exists|q: nat| #[trigger] reduces_to(a, m, q, pmod(a, m)),
        bitlen(pmod(a, m)) < bitlen(m),
{
    lemma_pmod_exists(a, m);
    let (q0, r0) = choose|q: nat, r: nat| #[trigger] reduces_to(a, m, q, r);
    assert(reduces_to(a, m, q0, r0));
    assert(has_remainder(a, m, r0));
    let r = choose|r: nat| #[trigger] has_remainder(a, m, r);
    assert(has_remainder(a, m, r));
    assert(pmod(a, m) == r);
    let q = choose|q: nat| #[trigger] reduces_to(a, m, q, r);
    assert(reduces_to(a, m, q, r));
    assert(reduces_to(a, m, q, pmod(a, m)));
}

/// A value already below the modulus degree is its own remainder.
pub proof fn lemma_pmod_small(a: nat, m: nat)
    requires
        m >= 2,
        bitlen(a) < bitlen(m),
    ensures
        pmod(a, m) == a,
{
    lemma_nx_zero(a);
    assert(reduces_to(a, m, 0, a));
    lemma_pmod_props(a, m);
    let q = choose|q: nat| #[trigger] reduces_to(a, m, q, pmod(a, m));
    lemma_pmod_unique(a, m, 0, a, q, pmod(a, m));
}

/// The carry-less product can also be unrolled along its right factor.
pub proof fn lemma_clmul_swap(a: nat, b: nat)
    ensures
        clmul(a, b) == nx(
            if b % 2 == 1 {
                a
            } else {
                0nat
            },
            2 * clmul(a, b / 2),
        ),
    decreases a,
{
    let cb: nat = if b % 2 == 1 {
        a
    } else {
        0
    };
    if a == 0 {
        lemma_nx_zero(0);
    } else {
        let ca: nat = if a % 2 == 1 {
            b
        } else {
            0
        };
        let m = clmul(a / 2, b);
        let w = clmul(a / 2, b / 2);
        let mb: nat = if b % 2 == 1 {
            a / 2
        } else {
            0
        };
        let cab: nat = if a % 2 == 1 && b % 2 == 1 {
            1nat
        } else {
            0nat
        };
        let chigh: nat = if a % 2 == 1 {
            2 * (b / 2)
        } else {
            0
        };
        let ca2: nat = if a % 2 == 1 {
            b / 2
        } else {
            0
        };
        assert(clmul(a, b) == nx(ca, 2 * m));
        lemma_clmul_swap(a / 2, b);
        assert(m == nx(mb, 2 * w));
        lemma_nx_double(mb, 2 * w);
        assert(2 * m == nx(2 * mb, 2 * (2 * w)));
        if a % 2 == 1 {
            lemma_nx_parts(b % 2, b / 2);
        } else {
            lemma_nx_zero(0);
        }
        assert(ca == nx(cab, chigh));
        lemma_nx_shuffle(cab, chigh, 2 * mb, 2 * (2 * w));
        assert(clmul(a, b) == nx(nx(cab, 2 * mb), nx(chigh, 2 * (2 * w))));
        if b % 2 == 1 {
            lemma_nx_parts(a % 2, a / 2);
        } else {
            lemma_nx_zero(0);
        }
        assert(cb == nx(cab, 2 * mb));
        assert(clmul(a, b / 2) == nx(ca2, 2 * w));
        lemma_nx_double(ca2, 2 * w);
        assert(2 * clmul(a, b / 2) == nx(2 * ca2, 2 * (2 * w)));
        assert(chigh == 2 * ca2);
    }
}

/// The carry-less product is commutative.
pub proof fn lemma_clmul_comm(a: nat, b: nat)
    ensures
        clmul(a, b) == clmul(b, a),
    decreases a,
{
    lemma_clmul_swap(b, a);
    if a == 0 {
        lemma_clmul_zero_right(b);
    } else {
        lemma_clmul_comm(a / 2, b);
    }
}

/// Doubling the left factor doubles the carry-less product.
pub proof fn lemma_clmul_two_left(m: nat, c: nat)
    ensures
        clmul(2 * m, c) == 2 * clmul(m, c),
{
    if m == 0 {
    } else {
        lemma_nx_zero(2 * clmul(m, c));
    }
}

/// The carry-less product is associative.
pub proof fn lemma_clmul_assoc(a: nat, b: nat, c: nat)
    ensures
        clmul(clmul(a, b), c) == clmul(a, clmul(b, c)),
    decreases a,
{
    if a == 0 {
    } else {
        lemma_clmul_assoc(a / 2, b, c);
        let ca: nat = if a % 2 == 1 {
            b
        } else {
            0
        };
        let m = clmul(a / 2, b);
        assert(clmul(a, b) == nx(ca, 2 * m));
        lemma_clmul_dist_left(ca, 2 * m, c);
        lemma_clmul_two_left(m, c);
        assert(clmul(ca, c) == if a % 2 == 1 {
            clmul(b, c)
        } else {
            0nat
        });
        assert(clmul(clmul(a, b), c) == nx(
            if a % 2 == 1 {
                clmul(b, c)
            } else {
                0nat
            },
            2 * clmul(clmul(a / 2, b), c),
        ));
    }
}

/// A low part below `2^s` and a multiple of `2^s` combine without carries.
pub proof fn lemma_nx_low_high(x: nat, s: nat, h: nat)
    requires
        x < pow2(s),
    ensures
        nx(x, pow2(s) * h) == x + pow2(s) * h,
    decreases s,
{
    vstd::arithmetic::power2::lemma_pow2_pos(s);
    if s == 0 {
        assert(pow2(0) == 1) by {
            vstd::arithmetic::power::lemma_pow0(2);
        };
        assert(x == 0);
        lemma_nx_zero(1 * h);
        assert(1 * h == h) by (nonlinear_arith);
    } else {
        vstd::arithmetic::power2::lemma_pow2_unfold(s);
        let hs = pow2((s - 1) as nat);
        assert(pow2(s) * h == 2 * (hs * h)) by (nonlinear_arith)
            requires
                pow2(s) == 2 * hs,
        ;
        assert(x / 2 < hs);
        lemma_nx_low_high(x / 2, (s - 1) as nat, h);
        if x == 0 && hs * h == 0 {
        } else {
            assert(nx(x, 2 * (hs * h)) == (x % 2) + 2 * nx(x / 2, hs * h));
        }
    }
}

/// The carry-less product distributes over exclusive or in the right factor.
pub proof fn lemma_clmul_dist_right(a: nat, x: nat, y: nat)
    ensures
        clmul(a, nx(x, y)) == nx(clmul(a, x), clmul(a, y)),
{
    lemma_clmul_comm(a, nx(x, y));
    lemma_clmul_dist_left(x, y, a);
    lemma_clmul_comm(x, a);
    lemma_clmul_comm(y, a);
}

/// Reduction distributes over exclusive or.
pub proof fn lemma_pmod_nx(x: nat, y: nat, m: nat)
    requires
        m >= 2,
    ensures
        pmod(nx(x, y), m) == nx(pmod(x, m), pmod(y, m)),
{
    lemma_pmod_props(x, m);
    lemma_pmod_props(y, m);
    let q1 = choose|q: nat| #[trigger] reduces_to(x, m, q, pmod(x, m));
    let q2 = choose|q: nat| #[trigger] reduces_to(y, m, q, pmod(y, m));
    let r1 = pmod(x, m);
    let r2 = pmod(y, m);
    lemma_nx_shuffle(clmul(q1, m), r1, clmul(q2, m), r2);
    lemma_clmul_dist_left(q1, q2, m);
    lemma_nx_bitlen_le(r1, r2);
    lemma_bitlen_pos(m);
    assert(reduces_to(nx(x, y), m, nx(q1, q2), nx(r1, r2)));
    lemma_pmod_props(nx(x, y), m);
    let q3 = choose|q: nat| #[trigger] reduces_to(nx(x, y), m, q, pmod(nx(x, y), m));
    lemma_pmod_unique(nx(x, y), m, nx(q1, q2), nx(r1, r2), q3, pmod(nx(x, y), m));
}

/// Reducing a factor before multiplying does not change the reduced product.
pub proof fn lemma_pmod_mul_left(x: nat, y: nat, m: nat)
    requires
        m >= 2,
    ensures
        pmod(clmul(pmod(x, m), y), m) == pmod(clmul(x, y), m),
{
    lemma_pmod_props(x, m);
    let q = choose|q: nat| #[trigger] reduces_to(x, m, q, pmod(x, m));
    // clmul(x, y) == nx(clmul(clmul(q, y), m), clmul(pmod(x, m), y)).
    lemma_clmul_dist_left(clmul(q, m), pmod(x, m), y);
    lemma_clmul_assoc(q, m, y);
    lemma_clmul_comm(m, y);
    lemma_clmul_assoc(q, y, m);
    lemma_pmod_shift(clmul(pmod(x, m), y), clmul(q, y), m);
}

/// Reducing the right factor before multiplying does not change the reduced
/// product.
pub proof fn lemma_pmod_mul_right(x: nat, y: nat, m: nat)
    requires
        m >= 2,
    ensures
        pmod(clmul(x, pmod(y, m)), m) == pmod(clmul(x, y), m),
{
    lemma_clmul_comm(x, pmod(y, m));
    lemma_clmul_comm(x, y);
    lemma_pmod_mul_left(y, x, m);
}


/// `d` divides `x` in GF(2)[x].
pub open spec fn pdivides(d: nat, x: nat) -> bool {
    exists|q: nat| #[trigger] clmul(q, d) == x
}

pub proof fn lemma_pdivides_refl(d: nat)
    ensures
        pdivides(d, d),
{
    lemma_clmul_one(d);
    assert(clmul(1, d) == d);
}

pub proof fn lemma_pdivides_zero(d: nat)
    ensures
        pdivides(d, 0),
{
    assert(clmul(0, d) == 0);
}

/// A common divisor of two values divides their sum.
pub proof fn lemma_pdivides_nx(d: nat, x: nat, y: nat)
    requires
        pdivides(d, x),
        pdivides(d, y),
    ensures
        pdivides(d, nx(x, y)),
{
    let qx = choose|q: nat| #[trigger] clmul(q, d) == x;
    let qy = choose|q: nat| #[trigger] clmul(q, d) == y;
    lemma_clmul_dist_left(qx, qy, d);
    assert(clmul(nx(qx, qy), d) == nx(x, y));
}

/// A divisor of `x` divides every multiple of `x`.
pub proof fn lemma_pdivides_mul(d: nat, c: nat, x: nat)
    requires
        pdivides(d, x),
    ensures
        pdivides(d, clmul(c, x)),
{
    let qx = choose|q: nat| #[trigger] clmul(q, d) == x;
    lemma_clmul_assoc(c, qx, d);
    assert(clmul(clmul(c, qx), d) == clmul(c, x));
}

/// Only the unit polynomial divides 1.
pub proof fn lemma_pdivides_one(d: nat)
    requires
        pdivides(d, 1),
    ensures
        d == 1,
{
    let q = choose|q: nat| #[trigger] clmul(q, d) == 1;
    if d == 0 {
        lemma_clmul_zero_right(q);
        assert(false);
    }
    if q == 0 {
        assert(clmul(0, d) == 0);
        assert(false);
    }
    lemma_clmul_bitlen(q, d);
    assert(bitlen(1nat) == 1) by {
        assert(bitlen(0nat) == 0);
    };
    lemma_bitlen_pos(q);
    lemma_bitlen_pos(d);
    assert(bitlen(d) == 1);
    // A value of bit length one is exactly 1.
    assert(bitlen(d) == 1 + bitlen(d / 2));
    assert(bitlen(d / 2) == 0);
    if d / 2 != 0 {
        assert(bitlen(d / 2) >= 1);
    }
    assert(d == 1);
}

/// Any common divisor of `a` and `b` divides a Bezout combination of them.
pub proof fn lemma_pdivides_combination(d: nat, u: nat, a: nat, v: nat, b: nat)
    requires
        pdivides(d, a),
        pdivides(d, b),
    ensures
        pdivides(d, nx(clmul(u, a), clmul(v, b))),
{
    lemma_pdivides_mul(d, u, a);
    lemma_pdivides_mul(d, v, b);
    lemma_pdivides_nx(d, clmul(u, a), clmul(v, b));
}

/// Adding a multiple of the modulus does not change the remainder.
pub proof fn lemma_pmod_shift(t: nat, k: nat, m: nat)
    requires
        m >= 2,
    ensures
        pmod(nx(clmul(k, m), t), m) == pmod(t, m),
{
    lemma_pmod_props(t, m);
    let q = choose|q: nat| #[trigger] reduces_to(t, m, q, pmod(t, m));
    let a = nx(clmul(k, m), t);
    // a == nx(clmul(nx(k, q), m), pmod(t, m)).
    lemma_clmul_dist_left(k, q, m);
    lemma_nx_assoc(clmul(k, m), clmul(q, m), pmod(t, m));
    assert(reduces_to(a, m, nx(k, q), pmod(t, m)));
    lemma_pmod_props(a, m);
    let q2 = choose|q2: nat| #[trigger] reduces_to(a, m, q2, pmod(a, m));
    lemma_pmod_unique(a, m, nx(k, q), pmod(t, m), q2, pmod(a, m));
}

} // verus!
