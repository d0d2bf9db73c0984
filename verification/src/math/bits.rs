//! Natural numbers read as strings of bits.

use vstd::arithmetic::div_mod::{lemma_breakdown, lemma_div_denominator};
use vstd::arithmetic::power2::{lemma2_to64, lemma_pow2_pos, lemma_pow2_unfold, pow2};
use vstd::prelude::*;

verus! {

/// Bit `i` of `v`, counting from the least significant.
pub open spec fn bit(v: nat, i: nat) -> bool {
    (v / pow2(i)) % 2 == 1
}

/// The bitwise exclusive or of `a` and `b`.
pub open spec fn xor(a: nat, b: nat) -> nat
    decreases a + b,
{
    if a == 0 && b == 0 {
        0
    } else {
        2 * xor(a / 2, b / 2) + if a % 2 != b % 2 { 1nat } else { 0nat }
    }
}

/// The bitwise and of `a` and `b`.
pub open spec fn and(a: nat, b: nat) -> nat
    decreases a + b,
{
    if a == 0 && b == 0 {
        0
    } else {
        2 * and(a / 2, b / 2) + if a % 2 == 1 && b % 2 == 1 { 1nat } else { 0nat }
    }
}

/// The bitwise or of `a` and `b`.
pub open spec fn or(a: nat, b: nat) -> nat
    decreases a + b,
{
    if a == 0 && b == 0 {
        0
    } else {
        2 * or(a / 2, b / 2) + if a % 2 == 1 || b % 2 == 1 { 1nat } else { 0nat }
    }
}

/// The number of bits needed to write `v`: zero for zero, else one more
/// than the position of the highest set bit.
pub open spec fn bit_len(v: nat) -> nat
    decreases v,
{
    if v == 0 {
        0
    } else {
        1 + bit_len(v / 2)
    }
}

/// The number of zero bits below the lowest set bit of `v`; zero for zero.
pub open spec fn low_zeros(v: nat) -> nat
    decreases v,
{
    if v == 0 || v % 2 == 1 {
        0
    } else {
        1 + low_zeros(v / 2)
    }
}

} // verus!

verus! {

/// How a power of two splits off the lowest bit: for `k > 0`, reducing
/// modulo `2^k` or dividing by `2^k` goes through the half.
pub proof fn lemma_pow2_halves(x: nat, k: nat)
    requires
        k > 0,
    ensures
        pow2(k) == 2 * pow2((k - 1) as nat),
        pow2(k) > 0,
        x % pow2(k) == 2 * ((x / 2) % pow2((k - 1) as nat)) + x % 2,
        x / pow2(k) == (x / 2) / pow2((k - 1) as nat),
{
    let h = pow2((k - 1) as nat);
    lemma_pow2_unfold(k);
    lemma_pow2_pos((k - 1) as nat);
    lemma_breakdown(x as int, 2, h as int);
    lemma_div_denominator(x as int, 2, h as int);
}

/// Halving commutes with the bitwise operations, and the lowest bit of the
/// result comes from the lowest bits of the operands.
pub proof fn lemma_bitwise_halves(a: nat, b: nat)
    ensures
        xor(a, b) / 2 == xor(a / 2, b / 2),
        xor(a, b) % 2 == if a % 2 != b % 2 { 1nat } else { 0nat },
        and(a, b) / 2 == and(a / 2, b / 2),
        and(a, b) % 2 == if a % 2 == 1 && b % 2 == 1 { 1nat } else { 0nat },
        or(a, b) / 2 == or(a / 2, b / 2),
        or(a, b) % 2 == if a % 2 == 1 || b % 2 == 1 { 1nat } else { 0nat },
{
    reveal_with_fuel(xor, 2);
    reveal_with_fuel(and, 2);
    reveal_with_fuel(or, 2);
}

/// A number is twice its half plus its lowest bit; two numbers with equal
/// halves and equal lowest bits are equal.
pub proof fn lemma_from_halves(a: nat, b: nat)
    requires
        a / 2 == b / 2,
        a % 2 == b % 2,
    ensures
        a == b,
{
}

pub proof fn lemma_xor_comm(a: nat, b: nat)
    ensures
        xor(a, b) == xor(b, a),
    decreases a + b,
{
    if a != 0 || b != 0 {
        lemma_xor_comm(a / 2, b / 2);
    }
}

pub proof fn lemma_xor_assoc(a: nat, b: nat, c: nat)
    ensures
        xor(xor(a, b), c) == xor(a, xor(b, c)),
    decreases a + b + c,
{
    if a != 0 || b != 0 || c != 0 {
        lemma_xor_assoc(a / 2, b / 2, c / 2);
        lemma_bitwise_halves(a, b);
        lemma_bitwise_halves(b, c);
        lemma_bitwise_halves(xor(a, b), c);
        lemma_bitwise_halves(a, xor(b, c));
        lemma_from_halves(xor(xor(a, b), c), xor(a, xor(b, c)));
    } else {
        reveal_with_fuel(xor, 2);
    }
}

/// Zero is neutral for the exclusive or, and every number is its own
/// inverse.
pub proof fn lemma_xor_zero_self(a: nat)
    ensures
        xor(a, 0) == a,
        xor(0, a) == a,
        xor(a, a) == 0,
    decreases a,
{
    if a != 0 {
        lemma_xor_zero_self(a / 2);
    }
}

/// Exclusive or with the same number on both sides cancels.
pub proof fn lemma_xor_cancel(a: nat, b: nat)
    ensures
        xor(xor(a, b), b) == a,
        xor(b, xor(b, a)) == a,
{
    lemma_xor_assoc(a, b, b);
    lemma_xor_assoc(b, b, a);
    lemma_xor_zero_self(b);
    lemma_xor_zero_self(a);
}

/// Doubling, with or without a low bit, passes through the exclusive or.
pub proof fn lemma_xor_double(a: nat, b: nat)
    ensures
        xor(2 * a, 2 * b) == 2 * xor(a, b),
        xor(2 * a + 1, 2 * b) == 2 * xor(a, b) + 1,
        xor(2 * a, 2 * b + 1) == 2 * xor(a, b) + 1,
        xor(2 * a + 1, 2 * b + 1) == 2 * xor(a, b),
        xor(2 * a, 1) == 2 * a + 1,
{
    lemma_bitwise_halves(2 * a, 2 * b);
    lemma_bitwise_halves(2 * a + 1, 2 * b);
    lemma_bitwise_halves(2 * a, 2 * b + 1);
    lemma_bitwise_halves(2 * a + 1, 2 * b + 1);
    lemma_bitwise_halves(2 * a, 1);
    lemma_xor_zero_self(a);
    assert(xor(0, 0) == 0);
}

/// A shift to the left passes through the exclusive or.
pub proof fn lemma_xor_shift(a: nat, b: nat, k: nat)
    ensures
        xor(a * pow2(k), b * pow2(k)) == xor(a, b) * pow2(k),
    decreases k,
{
    if k == 0 {
        lemma2_to64();
    } else {
        let h = pow2((k - 1) as nat);
        lemma_pow2_unfold(k);
        lemma_xor_shift(a, b, (k - 1) as nat);
        lemma_xor_double(a * h, b * h);
        assert(a * (2 * h) == 2 * (a * h)) by (nonlinear_arith);
        assert(b * (2 * h) == 2 * (b * h)) by (nonlinear_arith);
        assert(xor(a, b) * (2 * h) == 2 * (xor(a, b) * h)) by (nonlinear_arith);
    }
}

/// Numbers that share no bit position add up under the exclusive or and
/// under the or.
pub proof fn lemma_disjoint(a: nat, b: nat, k: nat)
    requires
        a < pow2(k),
    ensures
        xor(a, b * pow2(k)) == a + b * pow2(k),
        or(a, b * pow2(k)) == a + b * pow2(k),
    decreases k,
{
    if k == 0 {
        lemma2_to64();
        lemma_xor_zero_self(b);
        lemma_or_zero(b);
    } else {
        let h = pow2((k - 1) as nat);
        lemma_pow2_unfold(k);
        lemma_disjoint(a / 2, b, (k - 1) as nat);
        assert(b * (2 * h) == 2 * (b * h)) by (nonlinear_arith);
        lemma_bitwise_halves(a, 2 * (b * h));
        lemma_from_halves(xor(a, b * pow2(k)), a + b * pow2(k));
        lemma_from_halves(or(a, b * pow2(k)), a + b * pow2(k));
    }
}

pub proof fn lemma_or_zero(a: nat)
    ensures
        or(a, 0) == a,
        or(0, a) == a,
    decreases a,
{
    if a != 0 {
        lemma_or_zero(a / 2);
    }
}

/// Reduction modulo a power of two passes through the exclusive or.
pub proof fn lemma_xor_mod(a: nat, b: nat, k: nat)
    ensures
        xor(a, b) % pow2(k) == xor(a % pow2(k), b % pow2(k)),
    decreases k,
{
    if k == 0 {
        lemma2_to64();
    } else {
        lemma_pow2_halves(a, k);
        lemma_pow2_halves(b, k);
        lemma_pow2_halves(xor(a, b), k);
        lemma_xor_mod(a / 2, b / 2, (k - 1) as nat);
        lemma_bitwise_halves(a, b);
        let h = pow2((k - 1) as nat);
        lemma_bitwise_halves(a % pow2(k), b % pow2(k));
        lemma_from_halves(xor(a, b) % pow2(k), xor(a % pow2(k), b % pow2(k)));
    }
}

/// The and with `2^k - 1` keeps the lowest `k` bits.
pub proof fn lemma_and_mask(a: nat, k: nat)
    ensures
        pow2(k) >= 1,
        and(a, (pow2(k) - 1) as nat) == a % pow2(k),
    decreases k,
{
    lemma_pow2_pos(k);
    if k == 0 {
        lemma2_to64();
        lemma_and_zero(a);
    } else {
        lemma_pow2_halves(a, k);
        let h = pow2((k - 1) as nat);
        lemma_and_mask(a / 2, (k - 1) as nat);
        let m = (pow2(k) - 1) as nat;
        assert(m / 2 == h - 1 && m % 2 == 1);
        lemma_bitwise_halves(a, m);
        lemma_from_halves(and(a, m), a % pow2(k));
    }
}

pub proof fn lemma_and_zero(a: nat)
    ensures
        and(a, 0) == 0,
    decreases a,
{
    if a != 0 {
        lemma_and_zero(a / 2);
    }
}

/// A number lies below `2^k` exactly when it can be written in `k` bits.
pub proof fn lemma_bit_len_bound(v: nat, k: nat)
    ensures
        v < pow2(k) <==> bit_len(v) <= k,
    decreases k,
{
    lemma_pow2_pos(k);
    if k == 0 {
        lemma2_to64();
    } else {
        lemma_pow2_unfold(k);
        lemma_bit_len_bound(v / 2, (k - 1) as nat);
    }
}

/// A positive number reaches the power of two just below its length.
pub proof fn lemma_bit_len_range(v: nat)
    requires
        v > 0,
    ensures
        bit_len(v) >= 1,
        pow2((bit_len(v) - 1) as nat) <= v < pow2(bit_len(v)),
        bit(v, (bit_len(v) - 1) as nat),
        v / pow2((bit_len(v) - 1) as nat) == 1,
{
    let k = bit_len(v);
    lemma_bit_len_bound(v, k);
    lemma_bit_len_bound(v, (k - 1) as nat);
    let h = pow2((k - 1) as nat);
    lemma_pow2_unfold(k);
    lemma_pow2_pos((k - 1) as nat);
    assert(v / h == 1) by (nonlinear_arith)
        requires
            h <= v < 2 * h,
            h > 0,
    ;
}

/// The exclusive or of two numbers is no longer than the longer of them,
/// and shorter than both when they are equally long and not zero.
pub proof fn lemma_bit_len_xor(a: nat, b: nat)
    ensures
        bit_len(a) < bit_len(b) ==> bit_len(xor(a, b)) == bit_len(b),
        bit_len(a) == bit_len(b) && a > 0 ==> bit_len(xor(a, b)) < bit_len(a),
        bit_len(a) <= bit_len(b) ==> bit_len(xor(a, b)) <= bit_len(b),
    decreases a + b,
{
    if a != 0 || b != 0 {
        lemma_bit_len_xor(a / 2, b / 2);
        lemma_bitwise_halves(a, b);
        if a == 0 {
            lemma_xor_zero_self(b);
        }
    }
}

/// A shift to the left lengthens a positive number by the shift.
pub proof fn lemma_bit_len_shift(v: nat, k: nat)
    requires
        v > 0,
    ensures
        bit_len(v * pow2(k)) == bit_len(v) + k,
        v * pow2(k) > 0,
    decreases k,
{
    if k == 0 {
        lemma2_to64();
    } else {
        let h = pow2((k - 1) as nat);
        lemma_pow2_unfold(k);
        lemma_bit_len_shift(v, (k - 1) as nat);
        assert(v * (2 * h) == 2 * (v * h)) by (nonlinear_arith);
    }
}

/// Below the lowest set bit a positive number is a power of two times an
/// odd number.
pub proof fn lemma_low_zeros(v: nat)
    requires
        v > 0,
    ensures
        v == (v / pow2(low_zeros(v))) * pow2(low_zeros(v)),
        (v / pow2(low_zeros(v))) % 2 == 1,
        pow2(low_zeros(v)) <= v,
    decreases v,
{
    if v % 2 == 1 {
        lemma2_to64();
        assert(low_zeros(v) == 0);
        assert(pow2(0) == 1);
        assert(v / 1 == v);
        assert(v * 1 == v);
    } else {
        let k = low_zeros(v);
        assert(k == 1 + low_zeros(v / 2));
        lemma_low_zeros(v / 2);
        lemma_pow2_halves(v, k);
        let h = pow2((k - 1) as nat);
        let o = (v / 2) / h;
        assert(v / 2 == o * h);
        assert(o * (2 * h) == 2 * (o * h)) by (nonlinear_arith);
        assert(v / pow2(k) == o);
    }
}

/// The or of two numbers is as long as the longer of them, and odd where
/// one of them is.
pub proof fn lemma_or_bit_len(a: nat, b: nat)
    ensures
        bit_len(or(a, b)) == if bit_len(a) >= bit_len(b) { bit_len(a) } else { bit_len(b) },
        or(a, b) % 2 == 1 <==> a % 2 == 1 || b % 2 == 1,
    decreases a + b,
{
    lemma_bitwise_halves(a, b);
    if a != 0 || b != 0 {
        lemma_or_bit_len(a / 2, b / 2);
    }
}

} // verus!
