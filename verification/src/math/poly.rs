//! Polynomials over GF(2), written as natural numbers: bit `i` is the
//! coefficient of `x^i`. The sum of two polynomials is their exclusive or,
//! and the degree of a polynomial that is not zero is one less than its
//! length in bits.

use crate::math::bits::{
    bit_len, lemma_bit_len_bound, lemma_bit_len_shift, lemma_bit_len_xor, lemma_bitwise_halves,
    lemma_xor_assoc, lemma_xor_cancel, lemma_xor_comm, lemma_xor_double, lemma_xor_zero_self, xor,
};
use vstd::arithmetic::power2::{lemma2_to64, lemma_pow2_pos, lemma_pow2_unfold, pow2};
use vstd::prelude::*;

verus! {

/// The product of the polynomials `a` and `b`.
pub open spec fn clmul(a: nat, b: nat) -> nat
    decreases b,
{
    if b == 0 {
        0
    } else {
        xor(if b % 2 == 1 { a } else { 0 }, 2 * clmul(a, b / 2))
    }
}

/// One step of a division by `m` from the highest coefficient down: the
/// remainder `r` so far takes the next coefficient `c` below it and is
/// reduced once if it has reached the degree of `m`.
pub open spec fn rem_step(r: nat, c: nat, m: nat) -> nat {
    let t = 2 * r + c;
    if bit_len(t) >= bit_len(m) {
        xor(t, m)
    } else {
        t
    }
}

/// The remainder of the polynomial `a` on division by `m`, for `m` other
/// than zero. It is the one polynomial of lower degree than `m` that
/// differs from `a` by a multiple of `m`: see `lemma_rem_unique`.
pub open spec fn poly_rem(a: nat, m: nat) -> nat
    decreases a,
{
    if a == 0 {
        0
    } else {
        rem_step(poly_rem(a / 2, m), a % 2, m)
    }
}

/// Whether `p`, of degree one or more, has no factor but one and itself.
pub open spec fn irreducible(p: nat) -> bool {
    p >= 2 && forall|x: nat, y: nat| #[trigger] clmul(x, y) == p ==> x == 1 || y == 1
}

/// Products with zero and one.
pub proof fn lemma_clmul_unit(a: nat)
    ensures
        clmul(a, 0) == 0,
        clmul(0, a) == 0,
        clmul(a, 1) == a,
        clmul(1, a) == a,
    decreases a,
{
    reveal_with_fuel(clmul, 2);
    lemma_xor_zero_self(a);
    lemma_xor_zero_self(0);
    if a != 0 {
        lemma_clmul_unit(a / 2);
        lemma_xor_double(0, a / 2);
        lemma_xor_double(0, 0);
        lemma_xor_zero_self(a / 2);
        assert(xor(1, 2 * (a / 2)) == 2 * (a / 2) + 1) by {
            lemma_xor_comm(1, 2 * (a / 2));
            lemma_xor_double(a / 2, 0);
        }
        lemma_xor_zero_self(2 * (a / 2));
    }
}

/// A product by an even or an odd polynomial, on either side, in terms of
/// the product by its half.
pub proof fn lemma_clmul_halves(a: nat, b: nat)
    ensures
        clmul(a, 2 * b) == 2 * clmul(a, b),
        clmul(a, 2 * b + 1) == xor(a, 2 * clmul(a, b)),
        clmul(2 * a, b) == 2 * clmul(a, b),
        clmul(2 * a + 1, b) == xor(b, 2 * clmul(a, b)),
    decreases b,
{
    lemma_xor_zero_self(2 * clmul(a, b));
    assert((2 * b) / 2 == b && (2 * b + 1) / 2 == b);
    if b == 0 {
        reveal_with_fuel(clmul, 2);
        lemma_xor_zero_self(a);
        lemma_xor_zero_self(0);
    } else {
        let h = b / 2;
        lemma_clmul_halves(a, h);
        let c = clmul(a, h);
        // left factor even
        lemma_xor_double(a, 2 * c);
        lemma_xor_double(0, 2 * c);
        lemma_xor_zero_self(2 * c);
        lemma_xor_zero_self(4 * c);
        // left factor odd
        let d = clmul(2 * a + 1, h);
        assert(d == xor(h, 2 * c));
        lemma_xor_double(h, 2 * c);
        if b % 2 == 1 {
            // clmul(2a+1, b) = (2a+1) ^ 2 (h ^ 2c) = (2a+1) ^ 2h ^ 4c
            // b ^ 2 clmul(a, b) = (2h+1) ^ 2 (a ^ 2c) = (2h+1) ^ 2a ^ 4c
            lemma_xor_double(a, 2 * c);
            lemma_xor_assoc(2 * a + 1, 2 * h, 4 * c);
            lemma_xor_assoc(2 * h + 1, 2 * a, 4 * c);
            lemma_xor_double(a, h);
            lemma_xor_double(h, a);
            lemma_xor_comm(a, h);
        } else {
            lemma_xor_zero_self(2 * d);
            lemma_xor_zero_self(4 * c);
            lemma_xor_zero_self(2 * (2 * c));
        }
    }
}

/// The product distributes over the sum in its first factor.
pub proof fn lemma_clmul_xor_left(a: nat, b: nat, c: nat)
    ensures
        clmul(xor(a, b), c) == xor(clmul(a, c), clmul(b, c)),
    decreases c,
{
    if c == 0 {
        lemma_xor_zero_self(0);
    } else {
        let h = c / 2;
        lemma_clmul_xor_left(a, b, h);
        let x = clmul(a, h);
        let y = clmul(b, h);
        lemma_xor_double(x, y);
        if c % 2 == 1 {
            lemma_xor4(a, 2 * x, b, 2 * y);
        } else {
            lemma_xor_zero_self(2 * x);
            lemma_xor_zero_self(2 * y);
            lemma_xor_zero_self(2 * xor(x, y));
        }
    }
}

/// Four summands regrouped: `(a + x) + (b + y) == (a + b) + (x + y)`.
pub proof fn lemma_xor4(a: nat, x: nat, b: nat, y: nat)
    ensures
        xor(xor(a, x), xor(b, y)) == xor(xor(a, b), xor(x, y)),
{
    lemma_xor_assoc(a, x, xor(b, y));
    lemma_xor_assoc(x, b, y);
    lemma_xor_comm(x, b);
    lemma_xor_assoc(b, x, y);
    lemma_xor_assoc(a, b, xor(x, y));
}

/// The product does not depend on the order of its factors.
pub proof fn lemma_clmul_comm(a: nat, b: nat)
    ensures
        clmul(a, b) == clmul(b, a),
    decreases a + b,
{
    lemma_clmul_unit(a);
    lemma_clmul_unit(b);
    if a != 0 && b != 0 {
        let x = a / 2;
        let y = b / 2;
        lemma_clmul_comm(x, y);
        lemma_clmul_comm(a, y);
        lemma_clmul_comm(x, b);
        lemma_clmul_halves(a, y);
        lemma_clmul_halves(b, x);
        lemma_clmul_halves(x, y);
        lemma_clmul_halves(y, x);
        let c = clmul(x, y);
        lemma_xor_double(y, 2 * c);
        lemma_xor_double(x, 2 * c);
        lemma_xor_zero_self(4 * c);
        lemma_xor_zero_self(2 * c);
        lemma_xor_zero_self(0);
        if a % 2 == 1 && b % 2 == 1 {
            // a * b = a ^ 2 (y ^ 2c) and b * a = b ^ 2 (x ^ 2c)
            lemma_xor_assoc(a, 2 * y, 4 * c);
            lemma_xor_assoc(b, 2 * x, 4 * c);
            lemma_xor_double(x, y);
            lemma_xor_double(y, x);
            lemma_xor_comm(x, y);
        } else if a % 2 == 1 {
            lemma_xor_zero_self(2 * xor(y, 2 * c));
        } else if b % 2 == 1 {
            lemma_xor_zero_self(2 * xor(x, 2 * c));
        } else {
        }
    }
}

/// The product distributes over the sum in its second factor.
pub proof fn lemma_clmul_xor_right(a: nat, b: nat, c: nat)
    ensures
        clmul(a, xor(b, c)) == xor(clmul(a, b), clmul(a, c)),
{
    lemma_clmul_comm(a, xor(b, c));
    lemma_clmul_comm(a, b);
    lemma_clmul_comm(a, c);
    lemma_clmul_xor_left(b, c, a);
}

/// The product is associative.
pub proof fn lemma_clmul_assoc(a: nat, b: nat, c: nat)
    ensures
        clmul(clmul(a, b), c) == clmul(a, clmul(b, c)),
    decreases c,
{
    lemma_clmul_unit(a);
    if c != 0 {
        let h = c / 2;
        lemma_clmul_assoc(a, b, h);
        lemma_clmul_halves(a, clmul(b, h));
        if c % 2 == 1 {
            lemma_clmul_xor_right(a, b, 2 * clmul(b, h));
        } else {
            lemma_xor_zero_self(2 * clmul(clmul(a, b), h));
            lemma_xor_zero_self(2 * clmul(b, h));
        }
    }
}

/// The product by `x^k` is a shift by `k` places.
pub proof fn lemma_clmul_pow2(a: nat, k: nat)
    ensures
        clmul(a, pow2(k)) == a * pow2(k),
        clmul(pow2(k), a) == a * pow2(k),
    decreases k,
{
    if k == 0 {
        lemma2_to64();
        lemma_clmul_unit(a);
    } else {
        let h = pow2((k - 1) as nat);
        lemma_pow2_unfold(k);
        lemma_clmul_pow2(a, (k - 1) as nat);
        lemma_clmul_halves(a, h);
        assert(a * (2 * h) == 2 * (a * h)) by (nonlinear_arith);
    }
    lemma_clmul_comm(a, pow2(k));
}

/// The degree of a product is the sum of the degrees of its factors.
pub proof fn lemma_clmul_bit_len(a: nat, b: nat)
    requires
        a > 0,
        b > 0,
    ensures
        clmul(a, b) > 0,
        bit_len(clmul(a, b)) + 1 == bit_len(a) + bit_len(b),
    decreases b,
{
    let h = b / 2;
    if h == 0 {
        lemma_clmul_unit(a);
    } else {
        lemma_clmul_bit_len(a, h);
        let c = clmul(a, h);
        assert(bit_len(2 * c) == bit_len(c) + 1);
        if b % 2 == 1 {
            lemma_bit_len_xor(a, 2 * c);
            assert(bit_len(clmul(a, b)) == bit_len(2 * c));
        } else {
            lemma_xor_zero_self(2 * c);
        }
    }
}

/// A remainder has lower degree than the divisor.
pub proof fn lemma_rem_bound(a: nat, m: nat)
    requires
        m > 0,
    ensures
        bit_len(poly_rem(a, m)) < bit_len(m),
    decreases a,
{
    if a != 0 {
        lemma_rem_bound(a / 2, m);
        let r = poly_rem(a / 2, m);
        let t = 2 * r + a % 2;
        assert(bit_len(t) <= bit_len(r) + 1);
        if bit_len(t) >= bit_len(m) {
            lemma_bit_len_xor(t, m);
        }
    }
}

/// A polynomial of lower degree than the divisor is its own remainder.
pub proof fn lemma_rem_small(a: nat, m: nat)
    requires
        bit_len(a) < bit_len(m),
    ensures
        poly_rem(a, m) == a,
    decreases a,
{
    if a != 0 {
        lemma_rem_small(a / 2, m);
    }
}

/// The remainder of a sum is the sum of the remainders.
pub proof fn lemma_rem_xor(a: nat, b: nat, m: nat)
    requires
        m > 0,
    ensures
        poly_rem(xor(a, b), m) == xor(poly_rem(a, m), poly_rem(b, m)),
    decreases a + b,
{
    lemma_xor_zero_self(poly_rem(a, m));
    lemma_xor_zero_self(poly_rem(b, m));
    lemma_xor_zero_self(a);
    lemma_xor_zero_self(b);
    if a != 0 && b != 0 {
        lemma_rem_xor(a / 2, b / 2, m);
        lemma_bitwise_halves(a, b);
        lemma_rem_bound(a / 2, m);
        lemma_rem_bound(b / 2, m);
        let ra = poly_rem(a / 2, m);
        let rb = poly_rem(b / 2, m);
        let ta = 2 * ra + a % 2;
        let tb = 2 * rb + b % 2;
        let s = xor(a, b);
        let ts = 2 * xor(ra, rb) + s % 2;
        lemma_xor_double(ra, rb);
        assert(ts == xor(ta, tb));
        assert(poly_rem(s, m) == rem_step(xor(ra, rb), s % 2, m)) by {
            if s == 0 {
                assert(s / 2 == 0);
                lemma_xor_zero_self(0);
            }
        }
        // both ta and tb are at most as long as m
        assert(bit_len(ta) <= bit_len(m) && bit_len(tb) <= bit_len(m));
        lemma_bit_len_xor(ta, tb);
        lemma_bit_len_xor(tb, ta);
        lemma_xor_comm(ta, tb);
        if bit_len(ta) >= bit_len(m) && bit_len(tb) >= bit_len(m) {
            lemma_xor4(ta, m, tb, m);
            lemma_xor_zero_self(m);
            lemma_xor_zero_self(ts);
        } else if bit_len(ta) >= bit_len(m) {
            lemma_xor_assoc(ta, m, tb);
            lemma_xor_comm(m, tb);
            lemma_xor_assoc(ta, tb, m);
        } else if bit_len(tb) >= bit_len(m) {
            lemma_xor_assoc(ta, tb, m);
        } else {
            lemma_bit_len_xor(ta, tb);
        }
    }
}

/// A multiple of the divisor leaves no remainder.
pub proof fn lemma_rem_multiple(q: nat, m: nat)
    requires
        m > 0,
    ensures
        poly_rem(clmul(q, m), m) == 0,
        poly_rem(clmul(m, q), m) == 0,
        poly_rem(m, m) == 0,
    decreases q,
{
    lemma_rem_small(m / 2, m);
    lemma_xor_zero_self(m);
    assert(poly_rem(m, m) == 0);
    lemma_clmul_comm(q, m);
    if q != 0 {
        let h = q / 2;
        lemma_rem_multiple(h, m);
        let c = clmul(m, h);
        lemma_rem_xor(if q % 2 == 1 { m } else { 0 }, 2 * c, m);
        assert(poly_rem(2 * c, m) == 0) by {
            if c != 0 {
                assert((2 * c) / 2 == c);
                assert(bit_len(0) == 0);
            }
        }
        lemma_xor_zero_self(0);
    }
}

/// The one remainder: a polynomial `r` of lower degree than `m` that
/// differs from `a` by a multiple of `m` is the remainder of `a`.
pub proof fn lemma_rem_unique(a: nat, q: nat, r: nat, m: nat)
    requires
        m > 0,
        a == xor(clmul(q, m), r),
        bit_len(r) < bit_len(m),
    ensures
        r == poly_rem(a, m),
{
    lemma_rem_xor(clmul(q, m), r, m);
    lemma_rem_multiple(q, m);
    lemma_rem_small(r, m);
    lemma_xor_zero_self(r);
}

/// In a product, a factor may be replaced by its remainder.
pub proof fn lemma_rem_clmul(a: nat, b: nat, m: nat)
    requires
        m > 0,
    ensures
        poly_rem(clmul(a, b), m) == poly_rem(clmul(poly_rem(a, m), b), m),
        poly_rem(clmul(a, b), m) == poly_rem(clmul(a, poly_rem(b, m)), m),
    decreases b,
{
    lemma_rem_clmul_left(a, b, m);
    lemma_rem_clmul_left(b, a, m);
    lemma_clmul_comm(a, b);
    lemma_clmul_comm(a, poly_rem(b, m));
}

proof fn lemma_rem_clmul_left(a: nat, b: nat, m: nat)
    requires
        m > 0,
    ensures
        poly_rem(clmul(a, b), m) == poly_rem(clmul(poly_rem(a, m), b), m),
    decreases b,
{
    if b != 0 {
        let h = b / 2;
        let r = poly_rem(a, m);
        lemma_rem_clmul_left(a, h, m);
        lemma_rem_double(clmul(a, h), m);
        lemma_rem_double(clmul(r, h), m);
        lemma_rem_xor(if b % 2 == 1 { a } else { 0 }, 2 * clmul(a, h), m);
        lemma_rem_xor(if b % 2 == 1 { r } else { 0 }, 2 * clmul(r, h), m);
        lemma_rem_bound(a, m);
        lemma_rem_small(r, m);
    }
}

/// The remainder of `x` times a polynomial comes from the remainder of
/// that polynomial by one step.
pub proof fn lemma_rem_double(a: nat, m: nat)
    requires
        m > 0,
    ensures
        poly_rem(2 * a, m) == rem_step(poly_rem(a, m), 0, m),
{
    if a != 0 {
        assert((2 * a) / 2 == a);
    }
}

/// Whether the polynomial `d` divides the polynomial `x`.
pub open spec fn divides(d: nat, x: nat) -> bool {
    exists|k: nat| x == clmul(k, d)
}

/// The degree of the quotient: where `a` is `q` times `m` plus a remainder
/// of lower degree than `m`, either `q` is zero and `a` is that remainder,
/// or the degrees of `q` and `m` add up to the degree of `a`.
pub proof fn lemma_quotient_bit_len(a: nat, q: nat, r: nat, m: nat)
    requires
        m > 0,
        a == xor(clmul(q, m), r),
        bit_len(r) < bit_len(m),
    ensures
        q == 0 ==> a == r,
        q != 0 ==> bit_len(a) + 1 == bit_len(q) + bit_len(m),
        bit_len(q) <= bit_len(a),
{
    lemma_clmul_unit(m);
    if q == 0 {
        lemma_xor_zero_self(r);
    } else {
        lemma_clmul_bit_len(q, m);
        lemma_bit_len_xor(r, clmul(q, m));
        lemma_xor_comm(r, clmul(q, m));
    }
}

/// One step of Euclid's algorithm on the cofactors: where `x` is a
/// combination of `r` and `s`, and `r` is `q` times `s` plus `r2`, `x` is
/// a combination of `s` and `r2`.
pub proof fn lemma_euclid_cofactors(x: nat, al: nat, be: nat, q: nat, r: nat, s: nat, r2: nat)
    requires
        x == xor(clmul(al, r), clmul(be, s)),
        r == xor(clmul(q, s), r2),
    ensures
        x == xor(clmul(xor(clmul(al, q), be), s), clmul(al, r2)),
{
    lemma_clmul_xor_right(al, clmul(q, s), r2);
    lemma_clmul_assoc(al, q, s);
    lemma_clmul_xor_left(clmul(al, q), be, s);
    let u = clmul(clmul(al, q), s);
    let v = clmul(al, r2);
    let w = clmul(be, s);
    lemma_xor_assoc(u, v, w);
    lemma_xor_comm(v, w);
    lemma_xor_assoc(u, w, v);
}

/// A common divisor of an irreducible polynomial and of a polynomial of
/// lower degree that is not zero is one.
pub proof fn lemma_irreducible_coprime(p: nat, a: nat, al: nat, ga: nat, g: nat)
    requires
        irreducible(p),
        a != 0,
        bit_len(a) < bit_len(p),
        p == clmul(al, g),
        a == clmul(ga, g),
    ensures
        g == 1,
{
    lemma_clmul_unit(ga);
    lemma_clmul_unit(g);
    assert(g != 0 && ga != 0);
    lemma_clmul_bit_len(ga, g);
    if al == 1 {
        assert(p == g);
    }
}

/// The quotient of the polynomial `a` on division by `m`, for `m` other
/// than zero, built up beside the remainder.
pub open spec fn poly_quo(a: nat, m: nat) -> nat
    decreases a,
{
    if a == 0 {
        0
    } else {
        let t = 2 * poly_rem(a / 2, m) + a % 2;
        2 * poly_quo(a / 2, m) + if bit_len(t) >= bit_len(m) { 1nat } else { 0nat }
    }
}

/// Division with remainder: a polynomial is its quotient times the
/// divisor plus its remainder.
pub proof fn lemma_quo_rem(a: nat, m: nat)
    requires
        m > 0,
    ensures
        a == xor(clmul(poly_quo(a, m), m), poly_rem(a, m)),
        bit_len(poly_rem(a, m)) < bit_len(m),
    decreases a,
{
    lemma_rem_bound(a, m);
    lemma_clmul_unit(m);
    lemma_xor_zero_self(0);
    if a != 0 {
        let q = poly_quo(a / 2, m);
        let r = poly_rem(a / 2, m);
        let t = 2 * r + a % 2;
        lemma_quo_rem(a / 2, m);
        let x = clmul(q, m);
        lemma_clmul_halves(q, m);
        lemma_clmul_comm(q, m);
        lemma_clmul_comm(2 * q, m);
        lemma_clmul_comm(2 * q + 1, m);
        lemma_clmul_halves(m, q);
        lemma_xor_double(x, r);
        assert(a == xor(2 * x, t));
        if bit_len(t) >= bit_len(m) {
            lemma_xor_comm(m, 2 * x);
            lemma_xor4(2 * x, m, t, m);
            lemma_xor_zero_self(m);
            lemma_xor_zero_self(xor(2 * x, t));
        }
    }
}

} // verus!
