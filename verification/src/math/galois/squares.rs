//! A test of irreducibility by squares. A polynomial over GF(2) of degree
//! `n` is irreducible where, among the polynomials of lower degree, none
//! but zero and one is its own square modulo it, and none but zero has the
//! square zero: a product of two coprime factors would give a third
//! polynomial that is its own square, and a repeated factor one whose
//! square is zero.

use crate::math::bits::{
    bit_len, lemma_bit_len_bound, lemma_xor_assoc, lemma_xor_cancel, lemma_xor_comm,
    lemma_xor_zero_self, xor,
};
use crate::math::poly::{
    clmul, irreducible, lemma_clmul_assoc, lemma_clmul_bit_len, lemma_clmul_comm,
    lemma_clmul_unit, lemma_clmul_xor_left, lemma_clmul_xor_right, lemma_quo_rem, lemma_rem_bound,
    lemma_rem_clmul, lemma_rem_multiple, lemma_rem_small, lemma_rem_xor, poly_quo, poly_rem,
};
use crate::math::bits::{bit, lemma_disjoint};
use crate::math::poly::{lemma_clmul_halves, lemma_rem_double, lemma_xor4, rem_step};
use vstd::arithmetic::div_mod::lemma_breakdown;
use vstd::arithmetic::power2::{lemma2_to64, lemma_pow2_pos, lemma_pow2_unfold, pow2};
use vstd::prelude::*;

verus! {

/// The square of the polynomial `v` modulo `p`.
pub open spec fn square(v: nat, p: nat) -> nat {
    poly_rem(clmul(v, v), p)
}

/// The greatest common divisor of two polynomials with its cofactors:
/// `g == s a + t b`, `a == x g` and `b == y g`.
pub struct Bezout {
    pub g: nat,
    pub s: nat,
    pub t: nat,
    pub x: nat,
    pub y: nat,
}

/// Euclid's algorithm on polynomials: two polynomials have a common
/// divisor that is a combination of them.
pub proof fn lemma_bezout(a: nat, b: nat) -> (r: Bezout)
    ensures
        r.g == xor(clmul(r.s, a), clmul(r.t, b)),
        a == clmul(r.x, r.g),
        b == clmul(r.y, r.g),
        a != 0 || b != 0 ==> r.g != 0,
    decreases bit_len(b),
{
    lemma_clmul_unit(a);
    lemma_clmul_unit(b);
    if b == 0 {
        lemma_xor_zero_self(a);
        Bezout { g: a, s: 1, t: 0, x: 1, y: 0 }
    } else {
        let q = poly_quo(a, b);
        let rest = poly_rem(a, b);
        lemma_quo_rem(a, b);
        let e = lemma_bezout(b, rest);
        let g = e.g;
        // rest == a + q b
        lemma_xor_cancel(rest, clmul(q, b));
        lemma_xor_comm(clmul(q, b), rest);
        assert(rest == xor(a, clmul(q, b)));
        // g == s' b + t' (a + q b) == t' a + (s' + t' q) b
        lemma_clmul_xor_right(e.t, a, clmul(q, b));
        lemma_clmul_assoc(e.t, q, b);
        lemma_clmul_xor_left(e.s, clmul(e.t, q), b);
        let u = clmul(e.s, b);
        let v = clmul(e.t, a);
        let w = clmul(clmul(e.t, q), b);
        lemma_xor_assoc(u, v, w);
        lemma_xor_comm(u, v);
        lemma_xor_assoc(v, u, w);
        // a == q b + rest == (q y' + x'') g
        lemma_clmul_assoc(q, e.x, g);
        lemma_clmul_xor_left(clmul(q, e.x), e.y, g);
        Bezout { g, s: e.t, t: xor(e.s, clmul(e.t, q)), x: xor(clmul(q, e.x), e.y), y: e.x }
    }
}

/// A factor other than zero can be cancelled.
pub proof fn lemma_clmul_cancel(x: nat, y: nat, a: nat)
    requires
        a != 0,
        clmul(x, a) == clmul(y, a),
    ensures
        x == y,
{
    lemma_clmul_xor_left(x, y, a);
    lemma_xor_zero_self(clmul(x, a));
    let d = xor(x, y);
    if d != 0 {
        lemma_clmul_bit_len(d, a);
    }
    lemma_xor_cancel(x, y);
    lemma_xor_zero_self(y);
    lemma_xor_comm(x, y);
    lemma_xor_assoc(y, x, y);
    assert(xor(xor(x, y), y) == x);
}

/// A polynomial that divides one is one.
proof fn lemma_divides_one(b: nat, m: nat)
    requires
        clmul(b, m) == 1,
    ensures
        b == 1,
{
    lemma_clmul_unit(b);
    lemma_clmul_unit(m);
    reveal_with_fuel(bit_len, 3);
    if b != 0 && m != 0 {
        lemma_clmul_bit_len(b, m);
    }
}

/// Where `p` is `a b` and `s a + t b` is one, the remainder of `s a` is
/// its own square modulo `p`; it is zero only where `b` is one, and one
/// only where `a` is one.
proof fn lemma_coprime_factors(p: nat, a: nat, b: nat, s: nat, t: nat)
    requires
        p == clmul(a, b),
        p >= 2,
        a != 0,
        b != 0,
        xor(clmul(s, a), clmul(t, b)) == 1,
    ensures
        square(poly_rem(clmul(s, a), p), p) == poly_rem(clmul(s, a), p),
        poly_rem(clmul(s, a), p) == 0 ==> b == 1,
        poly_rem(clmul(s, a), p) == 1 ==> a == 1,
{
    let u = clmul(s, a);
    let w = clmul(t, b);
    let v = poly_rem(u, p);
    reveal_with_fuel(bit_len, 3);
    // u u == u (w + 1) == u w + u, and u w is a multiple of p
    lemma_xor_cancel(w, u);
    lemma_xor_comm(u, w);
    lemma_xor_comm(w, 1);
    assert(u == xor(w, 1)) by {
        lemma_xor_cancel(1, w);
        lemma_xor_assoc(u, w, w);
        lemma_xor_zero_self(w);
        lemma_xor_zero_self(u);
    }
    lemma_clmul_xor_right(u, w, 1);
    lemma_clmul_unit(u);
    assert(clmul(u, w) == clmul(clmul(s, t), p)) by {
        // (s a)(t b) == (s t)(a b)
        lemma_clmul_assoc(s, a, clmul(t, b));
        lemma_clmul_assoc(a, t, b);
        lemma_clmul_comm(a, t);
        lemma_clmul_assoc(t, a, b);
        lemma_clmul_assoc(s, t, clmul(a, b));
    }
    lemma_rem_multiple(clmul(s, t), p);
    lemma_rem_xor(clmul(u, w), u, p);
    lemma_xor_zero_self(v);
    lemma_rem_clmul(u, u, p);
    lemma_rem_clmul(v, u, p);
    assert(square(v, p) == v);
    if v == 0 {
        // p divides s a, so b divides s, and b divides one
        lemma_divisor_of_one(p, a, b, s, t);
    }
    if v == 1 {
        // then p divides t b, so a divides t, and a divides one
        lemma_rem_xor(u, 1, p);
        lemma_rem_small(1, p);
        lemma_xor_zero_self(1);
        lemma_xor_comm(w, 1);
        assert(poly_rem(w, p) == 0) by {
            lemma_xor_cancel(w, 1);
            lemma_xor_comm(u, 1);
            assert(w == xor(u, 1)) by {
                lemma_xor_assoc(u, w, u);
                lemma_xor_comm(u, w);
                lemma_xor_assoc(w, u, u);
                lemma_xor_zero_self(u);
                lemma_xor_zero_self(w);
                lemma_xor_cancel(w, u);
            }
        }
        lemma_clmul_comm(a, b);
        lemma_xor_comm(u, w);
        lemma_divisor_of_one(p, b, a, t, s);
    }
}

/// Where `p` is `a b`, divides `s a`, and `s a + t b` is one, `b` is one.
proof fn lemma_divisor_of_one(p: nat, a: nat, b: nat, s: nat, t: nat)
    requires
        p == clmul(a, b),
        p >= 2,
        a != 0,
        b != 0,
        xor(clmul(s, a), clmul(t, b)) == 1,
        poly_rem(clmul(s, a), p) == 0,
    ensures
        b == 1,
{
    let u = clmul(s, a);
    let q = poly_quo(u, p);
    lemma_quo_rem(u, p);
    lemma_xor_zero_self(clmul(q, p));
    // s a == q (a b) == (q b) a
    lemma_clmul_assoc(q, a, b);
    lemma_clmul_comm(a, b);
    lemma_clmul_assoc(q, b, a);
    lemma_clmul_cancel(s, clmul(q, b), a);
    // one == (q b) a + t b == b (q a + t)
    lemma_clmul_comm(clmul(q, a), b);
    lemma_clmul_comm(t, b);
    lemma_clmul_xor_right(b, clmul(q, a), t);
    lemma_clmul_assoc(q, b, a);
    lemma_clmul_assoc(q, a, b);
    lemma_divides_one(b, xor(clmul(q, a), t));
}

/// A polynomial `p` of degree `n` is irreducible where no polynomial of
/// lower degree but zero and one is its own square modulo `p`, and none
/// but zero has the square zero.
pub proof fn lemma_irreducible_by_squares(p: nat, n: nat)
    requires
        n >= 1,
        bit_len(p) == n + 1,
        forall|v: nat| bit_len(v) <= n && #[trigger] square(v, p) == v ==> v == 0 || v == 1,
        forall|v: nat| bit_len(v) <= n && #[trigger] square(v, p) == 0 ==> v == 0,
    ensures
        irreducible(p),
{
    reveal_with_fuel(bit_len, 3);
    assert(p >= 2);
    assert forall|a: nat, b: nat| #[trigger] clmul(a, b) == p implies a == 1 || b == 1 by {
        if a != 1 && b != 1 {
            lemma_clmul_unit(a);
            lemma_clmul_unit(b);
            assert(a != 0 && b != 0);
            lemma_clmul_bit_len(a, b);
            let e = lemma_bezout(a, b);
            if e.g == 1 {
                lemma_coprime_factors(p, a, b, e.s, e.t);
                let v = poly_rem(clmul(e.s, a), p);
                lemma_rem_bound(clmul(e.s, a), p);
                assert(square(v, p) == v);
            } else {
                // a == x g and b == y g: the square of x y g is a multiple of p
                let v = clmul(clmul(e.x, e.y), e.g);
                lemma_clmul_unit(e.g);
                lemma_clmul_unit(e.x);
                lemma_clmul_unit(e.y);
                assert(e.x != 0 && e.y != 0 && e.g != 0);
                lemma_clmul_bit_len(e.x, e.g);
                lemma_clmul_bit_len(e.y, e.g);
                lemma_clmul_bit_len(e.x, e.y);
                lemma_clmul_bit_len(clmul(e.x, e.y), e.g);
                assert(bit_len(v) <= n);
                assert(clmul(v, v) == clmul(clmul(e.x, e.y), p)) by {
                    // (x y g)(x y g) == (x y)((x g)(y g))
                    lemma_clmul_assoc(clmul(e.x, e.y), e.g, v);
                    lemma_clmul_comm(e.g, v);
                    lemma_clmul_assoc(clmul(e.x, e.y), e.g, e.g);
                    lemma_clmul_assoc(e.x, e.y, e.g);
                    lemma_clmul_assoc(clmul(e.x, clmul(e.y, e.g)), 1, e.g);
                    lemma_clmul_assoc(e.x, clmul(e.y, e.g), e.g);
                    lemma_clmul_comm(clmul(e.y, e.g), e.g);
                    lemma_clmul_assoc(e.x, e.g, clmul(e.y, e.g));
                }
                lemma_rem_multiple(clmul(e.x, e.y), p);
                assert(square(v, p) == 0);
            }
        }
    }
}

/// The polynomial `r` times `x`, reduced by `p`.
pub open spec fn mulx(r: nat, p: nat) -> nat {
    rem_step(r, 0, p)
}

/// The square of a sum is the sum of the squares.
pub proof fn lemma_square_xor(a: nat, b: nat, p: nat)
    requires
        p > 0,
    ensures
        square(xor(a, b), p) == xor(square(a, p), square(b, p)),
{
    let s = xor(a, b);
    let aa = clmul(a, a);
    let ab = clmul(a, b);
    let bb = clmul(b, b);
    lemma_clmul_xor_left(a, b, s);
    lemma_clmul_xor_right(a, a, b);
    lemma_clmul_xor_right(b, a, b);
    lemma_clmul_comm(a, b);
    lemma_xor_assoc(aa, ab, xor(ab, bb));
    lemma_xor_cancel(bb, ab);
    lemma_rem_xor(aa, bb, p);
}

/// The square of `x` times a polynomial is `x` times `x` times its square.
pub proof fn lemma_square_double(a: nat, p: nat)
    requires
        p > 0,
    ensures
        square(2 * a, p) == mulx(mulx(square(a, p), p), p),
{
    lemma_clmul_halves(2 * a, a);
    lemma_clmul_halves(a, a);
    lemma_rem_double(2 * clmul(a, a), p);
    lemma_rem_double(clmul(a, a), p);
}

/// A reduced polynomial times `x` is reduced.
pub proof fn lemma_mulx_reduced(r: nat, p: nat)
    requires
        p > 0,
        bit_len(r) < bit_len(p),
    ensures
        bit_len(mulx(r, p)) < bit_len(p),
{
    lemma_rem_small(r, p);
    lemma_rem_double(r, p);
    lemma_rem_bound(2 * r, p);
}

/// A reduced polynomial times `x`, by numbers: the double, less the
/// leading term of `p` and plus its lower terms where the double reaches
/// the degree of `p`.
pub proof fn lemma_mulx_value(r: nat, n: nat, low: nat)
    requires
        r < pow2(n),
        low < pow2(n),
    ensures
        mulx(r, pow2(n) + low) == if 2 * r < pow2(n) {
            2 * r
        } else {
            xor((2 * r - pow2(n)) as nat, low)
        },
{
    let m = pow2(n);
    let p = m + low;
    lemma_pow2_pos(n);
    lemma_pow2_unfold(n + 1);
    lemma_bit_len_bound(p, n);
    lemma_bit_len_bound(p, n + 1);
    lemma_bit_len_bound(2 * r, n);
    if 2 * r >= m {
        let t = (2 * r - m) as nat;
        assert(1 * m == m);
        lemma_disjoint(t, 1, n);
        lemma_disjoint(low, 1, n);
        lemma_xor4(t, m, low, m);
        lemma_xor_zero_self(m);
        lemma_xor_zero_self(xor(t, low));
    }
}

/// The squares of the powers of `x` follow one from the other: a table
/// that begins with one, and in which every entry is `x` times `x` times
/// the entry before, holds them.
pub proof fn lemma_square_table(table: spec_fn(nat) -> nat, n: nat, p: nat, i: nat)
    requires
        n >= 1,
        bit_len(p) == n + 1,
        table(0) == 1,
        forall|k: nat| k + 1 < n ==> #[trigger] table(k + 1) == mulx(mulx(table(k), p), p),
        i < n,
    ensures
        table(i) == square(pow2(i), p),
    decreases i,
{
    reveal_with_fuel(bit_len, 3);
    lemma2_to64();
    if i == 0 {
        lemma_clmul_unit(1);
        lemma_rem_small(1, p);
    } else {
        lemma_square_table(table, n, p, (i - 1) as nat);
        lemma_pow2_unfold(i);
        lemma_square_double(pow2((i - 1) as nat), p);
        assert(table((i - 1) as nat + 1) == mulx(mulx(table((i - 1) as nat), p), p));
    }
}

/// The sum of the entries of `table` at the bits of `v` below bit `k`.
pub open spec fn bit_sum(v: nat, k: nat, table: spec_fn(nat) -> nat) -> nat
    decreases k,
{
    if k == 0 {
        0
    } else {
        xor(
            bit_sum(v, (k - 1) as nat, table),
            if bit(v, (k - 1) as nat) {
                table((k - 1) as nat)
            } else {
                0
            },
        )
    }
}

/// The square of a polynomial is the sum of the squares of its terms.
pub proof fn lemma_square_as_sum(v: nat, k: nat, n: nat, p: nat, table: spec_fn(nat) -> nat)
    requires
        p > 0,
        k <= n,
        forall|i: nat| i < n ==> #[trigger] table(i) == square(pow2(i), p),
    ensures
        square(v % pow2(k), p) == bit_sum(v, k, table),
    decreases k,
{
    lemma_pow2_pos(k);
    lemma_clmul_unit(0);
    assert(poly_rem(0, p) == 0);
    if k == 0 {
        lemma2_to64();
    } else {
        let j = (k - 1) as nat;
        let h = pow2(j);
        lemma_pow2_pos(j);
        lemma_pow2_unfold(k);
        lemma_square_as_sum(v, j, n, p, table);
        lemma_breakdown(v as int, h as int, 2);
        assert(h * 2 == pow2(k));
        let lower = v % h;
        let top = (v / h) % 2;
        vstd::arithmetic::div_mod::lemma_mod_bound(v as int, h as int);
        lemma_disjoint(lower, top, j);
        assert(v % pow2(k) == xor(lower, top * h)) by {
            assert(h * top == top * h) by (nonlinear_arith);
        }
        lemma_square_xor(lower, top * h, p);
        if top == 1 {
            assert(1 * h == h);
            assert(table(j) == square(pow2(j), p));
        } else {
            assert(0 * h == 0);
        }
    }
}

/// The exclusive or of numbers is that of machine words.
pub proof fn lemma_xor_u128(a: u128, b: u128)
    ensures
        xor(a as nat, b as nat) == (a ^ b) as nat,
    decreases a as nat + b as nat,
{
    if a != 0 || b != 0 {
        let c = a ^ b;
        assert(a >> 1 == a / 2 && b >> 1 == b / 2 && c >> 1 == (a >> 1) ^ (b >> 1) && c >> 1 == c
            / 2 && c % 2 == (if a % 2 != b % 2 { 1u128 } else { 0u128 })) by (bit_vector)
            requires
                c == a ^ b,
        ;
        lemma_xor_u128(a >> 1, b >> 1);
    } else {
        assert((a ^ b) == 0) by (bit_vector)
            requires
                a == 0 && b == 0,
        ;
    }
}

/// A reduced polynomial times `x` on machine words, where `h` is the
/// highest term of a reduced polynomial.
pub open spec fn mulx_word(c: u128, h: u128, low: u128) -> u128 {
    if c >= h {
        ((c ^ h) << 1) ^ low
    } else {
        c << 1
    }
}

/// A reduced polynomial times `x` is the same on numbers and on machine
/// words.
pub proof fn lemma_mulx_word(c: u128, n: nat, h: u128, low: u128)
    requires
        1 <= n <= 128,
        h as nat == pow2((n - 1) as nat),
        h != 0 && h & ((h - 1) as u128) == 0,
        (c as nat) < pow2(n),
        (low as nat) < pow2(n),
    ensures
        mulx(c as nat, pow2(n) + low as nat) == mulx_word(c, h, low) as nat,
{
    lemma_pow2_unfold(n);
    lemma_mulx_value(c as nat, n, low as nat);
    if c >= h {
        let d = ((c ^ h) << 1);
        assert((c ^ h) == c - h && ((c ^ h) << 1) == 2 * (c - h)) by (bit_vector)
            requires
                h != 0 && h & ((h - 1) as u128) == 0,
                c >= h,
                c - h < h,
        ;
        lemma_xor_u128(d, low);
    } else {
        assert(c << 1 == 2 * c) by (bit_vector)
            requires
                h != 0 && h & ((h - 1) as u128) == 0,
                c < h,
        ;
    }
}

/// Bit `i` of a machine word.
pub proof fn lemma_bit_word(v: u128, i: u128)
    requires
        i < 128,
    ensures
        bit(v as nat, i as nat) == ((v >> i) & 1 == 1),
{
    vstd::bits::lemma_u128_shr_is_div(v, i);
    let w = v >> i;
    assert((w & 1 == 1) == (w % 2 == 1)) by (bit_vector);
}

} // verus!
