//! The binary fields GF(2^EXP).
//!
//! An element is a polynomial over GF(2) of degree below `EXP`, held as the
//! low `EXP` bits of an integer. Sums are bitwise; products are reduced by
//! the irreducible polynomial of degree `EXP`.

use crate::math::abel::{AbelianMonoid, Inv};
use crate::math::bits::{
    bit, bit_len, lemma_and_mask, lemma_bit_len_bound, lemma_bit_len_range, lemma_bit_len_shift,
    lemma_bit_len_xor, lemma_disjoint, lemma_xor_assoc, lemma_xor_cancel, lemma_xor_comm,
    lemma_xor_double, lemma_xor_mod, lemma_xor_zero_self, xor,
};
use crate::math::galois::irreducible::{
    irreducible_low_terms, lemma_low_terms, lemma_table_irreducible, low_terms, modulus_poly,
};
use crate::math::galois::FiniteField;
use crate::math::group::{
    associative, closed, commutative, invertible, is_group, lemma_power_by_order, lists, neutral,
    power,
};
use crate::math::poly::{
    clmul, divides, irreducible, lemma_clmul_assoc, lemma_clmul_comm, lemma_clmul_halves,
    lemma_clmul_pow2, lemma_clmul_unit, lemma_clmul_xor_left, lemma_euclid_cofactors,
    lemma_irreducible_coprime, lemma_quo_rem, lemma_quotient_bit_len, lemma_rem_bound,
    lemma_rem_clmul, poly_quo,
    lemma_rem_double, lemma_rem_multiple, lemma_rem_small, lemma_rem_unique, lemma_rem_xor,
    lemma_xor4, poly_rem,
};
use crate::math::uint::Uint;
use vstd::arithmetic::div_mod::{
    lemma_breakdown, lemma_mod_mod, lemma_small_mod, lemma_truncate_middle,
};
use vstd::arithmetic::power2::{
    lemma2_to64, lemma_pow2_adds, lemma_pow2_pos, lemma_pow2_strictly_increases,
    lemma_pow2_unfold, pow2,
};
use vstd::prelude::*;

verus! {

/// Whether the field of degree `exp` is available on integers of `limbs`
/// limbs: the table holds its polynomial, and an element fits.
pub open spec fn field_defined(exp: u32, limbs: usize) -> bool {
    &&& low_terms(exp).is_some()
    &&& exp <= 64 * limbs
    &&& 64 * limbs <= u32::MAX
}

/// The product of the field elements `a` and `b` in the field of degree
/// `exp`: the remainder of the product of the two polynomials on division
/// by the field's irreducible polynomial.
pub open spec fn field_mul(a: nat, b: nat, exp: u32) -> nat {
    poly_rem(clmul(a, b), modulus_poly(exp))
}

/// `a` multiplied by itself `e` times in the field of degree `exp`.
pub open spec fn field_pow(a: nat, e: nat, exp: u32) -> nat
    decreases e,
{
    if e == 0 {
        1
    } else {
        field_mul(a, field_pow(a, (e - 1) as nat, exp), exp)
    }
}

/// The inverse of `a` in the field of degree `exp`: the reduced element
/// whose product with `a` is one. Every reduced `a` other than zero has
/// exactly one.
pub open spec fn field_inv(a: nat, exp: u32) -> nat {
    choose|i: nat| i < pow2(exp as nat) && field_mul(a, i, exp) == 1
}

/// An element of GF(2^EXP), on an integer of `LIMBS` limbs.
#[derive(Debug, Clone, Copy, PartialEq, Eq)]
pub struct BinaryField<const EXP: u32, const LIMBS: usize>(Uint<LIMBS>);

impl<const EXP: u32, const LIMBS: usize> View for BinaryField<EXP, LIMBS> {
    type V = nat;

    closed spec fn view(&self) -> nat {
        self.0@
    }
}

/// What one round of the multiplication loop does to the running product
/// `p`, the shifted left factor `l` and the remaining right factor `r`,
/// on integers of `w` bits: the sum of the product so far and of what is
/// still to come stays the same modulo the polynomial.
proof fn lemma_mul_round(p: nat, l: nat, r: nat, exp: u32, w: nat)
    requires
        low_terms(exp).is_some(),
        exp <= w,
        r > 0,
    ensures
        ({
            let m = pow2(exp as nat);
            let low = low_terms(exp).unwrap() as nat;
            let q = if r % 2 == 1 { xor(p, l) } else { p };
            let sh = (l * pow2(1)) % pow2(w);
            let l2 = if bit(l, (exp - 1) as nat) { xor(sh, low) } else { sh };
            xor(q % m, poly_rem(clmul(l2 % m, r / 2), modulus_poly(exp))) == xor(
                p % m,
                poly_rem(clmul(l % m, r), modulus_poly(exp)),
            )
        }),
{
    lemma_low_terms(exp);
    lemma2_to64();
    let e = exp as nat;
    let m = pow2(e);
    let h = pow2((e - 1) as nat);
    let low = low_terms(exp).unwrap() as nat;
    let pp = modulus_poly(exp);
    let q = if r % 2 == 1 { xor(p, l) } else { p };
    let sh = (l * pow2(1)) % pow2(w);
    let carry = bit(l, (e - 1) as nat);
    let l2 = if carry { xor(sh, low) } else { sh };
    let lm = l % m;
    let c = r / 2;
    lemma_pow2_unfold(e);
    lemma_pow2_pos(e);
    lemma_pow2_pos((e - 1) as nat);
    // the polynomial is one bit longer than any element
    lemma_bit_len_bound(pp, e);
    lemma_bit_len_bound(pp, e + 1);
    lemma_pow2_unfold(e + 1);
    assert(bit_len(pp) == e + 1);
    assert(lm < m) by {
        vstd::arithmetic::div_mod::lemma_mod_bound(l as int, m as int);
    }
    lemma_bit_len_bound(lm, e);
    // the shifted factor modulo 2^exp is twice the low part of the factor
    let t = (2 * l) % m;
    assert(sh % m == t) by {
        lemma_pow2_adds(e, (w - e) as nat);
        lemma_pow2_pos((w - e) as nat);
        lemma_mod_mod((2 * l) as int, m as int, pow2((w - e) as nat) as int);
        assert(l * 2 == 2 * l);
    }
    assert(t == 2 * (l % h)) by {
        lemma_truncate_middle(l as int, 2, h as int);
    }
    assert(lm == h * ((l / h) % 2) + l % h) by {
        lemma_breakdown(l as int, h as int, 2);
        assert(h * 2 == m);
    }
    assert(l % h < h) by {
        vstd::arithmetic::div_mod::lemma_mod_bound(l as int, h as int);
    }
    // what the next shifted factor is modulo the polynomial
    lemma_rem_small(lm, pp);
    lemma_rem_double(lm, pp);
    let next = poly_rem(2 * lm, pp);
    assert(next == l2 % m) by {
        if carry {
            assert((l / h) % 2 == 1);
            assert(h * 1 == h);
            assert(2 * lm == t + m);
            lemma_bit_len_bound(2 * lm, e);
            assert(next == xor(2 * lm, pp));
            assert(m * 1 == m);
            assert(1 * m == m);
            lemma_disjoint(t, 1, e);
            lemma_disjoint(low, 1, e);
            lemma_xor4(t, m, low, m);
            lemma_xor_zero_self(m);
            lemma_xor_zero_self(xor(t, low));
            lemma_xor_mod(sh, low, e);
            lemma_small_mod(low, m);
        } else {
            assert((l / h) % 2 == 0);
            assert(h * 0 == 0);
            assert(2 * lm == t);
            lemma_bit_len_bound(2 * lm, e);
        }
    }
    // the product still to come, split at the lowest bit of the right factor
    let head = if r % 2 == 1 { lm } else { 0 };
    assert(clmul(lm, r) == xor(head, 2 * clmul(lm, c)));
    lemma_clmul_halves(lm, c);
    lemma_rem_xor(head, clmul(2 * lm, c), pp);
    lemma_rem_small(head, pp);
    lemma_rem_clmul(2 * lm, c, pp);
    let tail = poly_rem(clmul(next, c), pp);
    assert(poly_rem(clmul(lm, r), pp) == xor(head, tail));
    if r % 2 == 1 {
        lemma_xor_mod(p, l, e);
        lemma_xor_assoc(p % m, lm, tail);
    } else {
        lemma_xor_zero_self(tail);
    }
}

impl<const EXP: u32, const LIMBS: usize> BinaryField<EXP, LIMBS> {
    /// Whether the element is reduced: no bit at or above `EXP` is set.
    pub closed spec fn well_formed(&self) -> bool {
        self.0@ < pow2(EXP as nat)
    }

    /// The integer whose low `EXP` bits are all set.
    fn mask() -> (r: Uint<LIMBS>)
        requires
            field_defined(EXP, LIMBS),
        ensures
            r@ == pow2(EXP as nat) - 1,
    {
        proof {
            lemma_low_terms(EXP);
            lemma2_to64();
            lemma_pow2_pos((EXP - 1) as nat);
            lemma_pow2_unfold(EXP as nat);
            lemma_pow2_strictly_increases((EXP - 1) as nat, Uint::<LIMBS>::width());
        }
        let one = Uint::<LIMBS>::one();
        let top = one.shl(EXP - 1);
        proof {
            assert(1 * pow2((EXP - 1) as nat) == pow2((EXP - 1) as nat));
            lemma_small_mod(pow2((EXP - 1) as nat), pow2(Uint::<LIMBS>::width()));
        }
        let below = top.wrapping_sub(&one);
        proof {
            lemma_disjoint(below@, 1, (EXP - 1) as nat);
        }
        below.or(&top)
    }

    /// The product of two integers read as polynomials, reduced by the
    /// field's polynomial; bits of `lhs` at or above `EXP` do not count.
    fn mul_reduce(lhs: Uint<LIMBS>, rhs: Uint<LIMBS>) -> (r: Uint<LIMBS>)
        requires
            field_defined(EXP, LIMBS),
        ensures
            r@ == field_mul(lhs@ % pow2(EXP as nat), rhs@, EXP),
            r@ < pow2(EXP as nat),
    {
        proof {
            lemma_low_terms(EXP);
            lemma2_to64();
        }
        let low = match irreducible_low_terms(EXP) {
            Some(l) => l,
            None => 0,
        };
        let irred = Uint::<LIMBS>::from_u64(low);
        let ghost m = pow2(EXP as nat);
        let ghost pp = modulus_poly(EXP);
        let ghost goal = field_mul(lhs@ % m, rhs@, EXP);
        let mut prod = Uint::<LIMBS>::zero();
        let mut l = lhs;
        let mut r = rhs;
        proof {
            lemma_pow2_pos(EXP as nat);
            lemma_small_mod(0, m);
            lemma_xor_zero_self(goal);
        }
        while !r.is_zero()
            invariant
                field_defined(EXP, LIMBS),
                m == pow2(EXP as nat),
                pp == modulus_poly(EXP),
                irred@ == low_terms(EXP).unwrap(),
                xor(prod@ % m, poly_rem(clmul(l@ % m, r@), pp)) == goal,
            decreases r@,
        {
            proof {
                lemma2_to64();
                lemma_mul_round(prod@, l@, r@, EXP, Uint::<LIMBS>::width());
                assert(bit(r@, 0) == (r@ % 2 == 1));
            }
            if r.bit(0) {
                prod = prod.xor(&l);
            }
            let carry = l.bit(EXP - 1);
            l = l.shl(1);
            if carry {
                l = l.xor(&irred);
            }
            r = r.shr(1);
        }
        proof {
            lemma_clmul_unit(l@ % m);
            lemma_xor_zero_self(prod@ % m);
            lemma_and_mask(prod@, EXP as nat);
            vstd::arithmetic::div_mod::lemma_mod_bound(prod@ as int, m as int);
        }
        let mask = Self::mask();
        prod.and(&mask)
    }
}

/// What one round of the division loop does to the quotient `q` and the
/// remainder `rm` so far, on integers of `w` bits: `d` is the difference
/// in length between the remainder and the divisor `rhs`.
proof fn lemma_divrem_round(q: nat, rm: nat, rhs: nat, d: nat, w: nat)
    requires
        rhs > 0,
        bit_len(rm) == bit_len(rhs) + d,
        bit_len(rm) <= w,
    ensures
        ({
            let one_d = (1 * pow2(d)) % pow2(w);
            let rhs_d = (rhs * pow2(d)) % pow2(w);
            &&& xor(clmul(xor(q, one_d), rhs), xor(rm, rhs_d)) == xor(clmul(q, rhs), rm)
            &&& bit_len(xor(rm, rhs_d)) < bit_len(rm)
        }),
{
    let x = rhs * pow2(d);
    lemma_bit_len_shift(rhs, d);
    lemma_bit_len_bound(x, w);
    lemma_small_mod(x, pow2(w));
    lemma_pow2_pos(d);
    assert(1 * pow2(d) == pow2(d));
    assert(pow2(d) <= x) by (nonlinear_arith)
        requires
            x == rhs * pow2(d),
            rhs >= 1,
    ;
    lemma_small_mod(pow2(d), pow2(w));
    lemma_clmul_xor_left(q, pow2(d), rhs);
    lemma_clmul_pow2(rhs, d);
    lemma_xor4(clmul(q, rhs), x, rm, x);
    lemma_xor_zero_self(x);
    lemma_xor_zero_self(xor(clmul(q, rhs), rm));
    lemma_bit_len_xor(rm, x);
}

/// Divides the polynomial `lhs` by the polynomial `rhs`, which is not zero:
/// returns the quotient and the remainder.
pub fn divrem<const LIMBS: usize>(lhs: Uint<LIMBS>, rhs: Uint<LIMBS>) -> (r: (
    Uint<LIMBS>,
    Uint<LIMBS>,
))
    requires
        rhs@ != 0,
        64 * LIMBS <= u32::MAX,
    ensures
        lhs@ == xor(clmul(r.0@, rhs@), r.1@),
        bit_len(r.1@) < bit_len(rhs@),
        r.1@ == poly_rem(lhs@, rhs@),
{
    proof {
        lhs.lemma_value(rhs);
        rhs.lemma_value(lhs);
        lemma_bit_len_bound(lhs@, Uint::<LIMBS>::width());
        lemma_clmul_unit(rhs@);
        lemma_xor_zero_self(lhs@);
        if LIMBS == 0 {
            lemma2_to64();
        }
    }
    let one = Uint::<LIMBS>::one();
    let mut quo = Uint::<LIMBS>::zero();
    let mut rem = lhs;
    let mut lbits = rem.bits();
    let rbits = rhs.bits();
    while lbits >= rbits
        invariant
            LIMBS >= 1,
            64 * LIMBS <= u32::MAX,
            one@ == 1,
            rhs@ != 0,
            rbits == bit_len(rhs@),
            lbits == bit_len(rem@),
            lbits <= Uint::<LIMBS>::width(),
            lhs@ == xor(clmul(quo@, rhs@), rem@),
        decreases lbits,
    {
        let d = lbits - rbits;
        proof {
            lemma_divrem_round(quo@, rem@, rhs@, d as nat, Uint::<LIMBS>::width());
        }
        quo = quo.xor(&one.shl(d));
        rem = rem.xor(&rhs.shl(d));
        lbits = rem.bits();
    }
    proof {
        lemma_rem_unique(lhs@, quo@, rem@, rhs@);
    }
    (quo, rem)
}

/// The polynomial of the field is one bit longer than any element, and is
/// twice its half plus one.
proof fn lemma_modulus_shape(exp: u32)
    requires
        low_terms(exp).is_some(),
    ensures
        bit_len(modulus_poly(exp)) == exp + 1,
        modulus_poly(exp) >= 2,
        modulus_poly(exp) / 2 == pow2((exp - 1) as nat) + low_terms(exp).unwrap() as nat / 2,
        modulus_poly(exp) % 2 == 1,
        bit_len(modulus_poly(exp) / 2) == exp,
        bit_len(1) == 1,
        1 < pow2(exp as nat),
{
    lemma_low_terms(exp);
    lemma2_to64();
    let e = exp as nat;
    lemma_pow2_unfold(e);
    lemma_pow2_unfold(e + 1);
    lemma_pow2_pos((e - 1) as nat);
    lemma_bit_len_bound(modulus_poly(exp), e);
    lemma_bit_len_bound(modulus_poly(exp), e + 1);
    lemma_pow2_strictly_increases(0, e);
    reveal_with_fuel(bit_len, 2);
}

/// Multiplication in the field is associative and commutative, and one is
/// neutral on reduced elements.
pub proof fn lemma_field_mul_laws(a: nat, b: nat, c: nat, exp: u32)
    requires
        low_terms(exp).is_some(),
    ensures
        field_mul(field_mul(a, b, exp), c, exp) == field_mul(a, field_mul(b, c, exp), exp),
        field_mul(a, b, exp) == field_mul(b, a, exp),
        field_mul(a, b, exp) < pow2(exp as nat),
        a < pow2(exp as nat) ==> field_mul(a, 1, exp) == a && field_mul(1, a, exp) == a,
{
    let pp = modulus_poly(exp);
    lemma_modulus_shape(exp);
    lemma_rem_clmul(clmul(a, b), c, pp);
    lemma_rem_clmul(a, clmul(b, c), pp);
    lemma_clmul_assoc(a, b, c);
    lemma_clmul_comm(a, b);
    lemma_rem_bound(clmul(a, b), pp);
    lemma_bit_len_bound(field_mul(a, b, exp), exp as nat);
    lemma_clmul_unit(a);
    if a < pow2(exp as nat) {
        lemma_bit_len_bound(a, exp as nat);
        lemma_rem_small(a, pp);
    }
}

/// Multiplication in the field distributes over the sum.
pub proof fn lemma_field_mul_xor(a: nat, b: nat, c: nat, exp: u32)
    requires
        low_terms(exp).is_some(),
    ensures
        field_mul(xor(a, b), c, exp) == xor(field_mul(a, c, exp), field_mul(b, c, exp)),
{
    lemma_modulus_shape(exp);
    lemma_clmul_xor_left(a, b, c);
    lemma_rem_xor(clmul(a, c), clmul(b, c), modulus_poly(exp));
}

/// An element has at most one inverse: a reduced `i` whose product with
/// `a` is one is the inverse of `a`.
pub proof fn lemma_field_inv_unique(a: nat, i: nat, exp: u32)
    requires
        low_terms(exp).is_some(),
        i < pow2(exp as nat),
        field_mul(a, i, exp) == 1,
    ensures
        field_inv(a, exp) == i,
        field_mul(a, field_inv(a, exp), exp) == 1,
{
    let j = field_inv(a, exp);
    assert(j < pow2(exp as nat) && field_mul(a, j, exp) == 1);
    // i = i (a j) = (i a) j = j
    lemma_field_mul_laws(i, a, j, exp);
    lemma_field_mul_laws(a, i, 1, exp);
    lemma_field_mul_laws(j, 1, 1, exp);
    lemma_field_mul_laws(i, 1, 1, exp);
}

/// Zero is the inverse of nothing, and an inverse on one side is one on
/// the other.
proof fn lemma_zero_has_no_inverse(a: nat, exp: u32)
    requires
        low_terms(exp).is_some(),
    ensures
        field_mul(a, 0, exp) != 1,
        forall|i: nat| field_mul(a, i, exp) == #[trigger] field_mul(i, a, exp),
{
    lemma_clmul_unit(a);
    assert(poly_rem(0, modulus_poly(exp)) == 0);
    assert forall|i: nat| field_mul(a, i, exp) == #[trigger] field_mul(i, a, exp) by {
        lemma_clmul_comm(a, i);
    }
}

/// Powers add up in the exponent, and every power is reduced.
pub proof fn lemma_field_pow_add(a: nat, m: nat, n: nat, exp: u32)
    requires
        low_terms(exp).is_some(),
    ensures
        field_pow(a, m + n, exp) == field_mul(field_pow(a, m, exp), field_pow(a, n, exp), exp),
        field_pow(a, n, exp) < pow2(exp as nat),
    decreases m,
{
    lemma_modulus_shape(exp);
    if n > 0 {
        lemma_field_mul_laws(a, field_pow(a, (n - 1) as nat, exp), 1, exp);
    }
    if m == 0 {
        lemma_field_mul_laws(field_pow(a, n, exp), 1, 1, exp);
    } else {
        lemma_field_pow_add(a, (m - 1) as nat, n, exp);
        lemma_field_mul_laws(
            a,
            field_pow(a, (m - 1) as nat, exp),
            field_pow(a, n, exp),
            exp,
        );
        assert(field_pow(a, m + n, exp) == field_mul(
            a,
            field_pow(a, (m + n - 1) as nat, exp),
            exp,
        ));
    }
}

/// One round of the exponentiation: the power by the exponent cut off
/// above bit `i` comes from the power by the exponent cut off above bit
/// `i + 1` by a squaring and, where bit `i` is set, a multiplication.
proof fn lemma_pow_round(a: nat, e: nat, i: nat, exp: u32)
    requires
        low_terms(exp).is_some(),
        a < pow2(exp as nat),
    ensures
        ({
            let prev = field_pow(a, e / pow2(i + 1), exp);
            let sq = field_mul(prev, prev, exp);
            field_pow(a, e / pow2(i), exp) == if bit(e, i) {
                field_mul(sq, a, exp)
            } else {
                sq
            }
        }),
{
    let k = e / pow2(i + 1);
    lemma_pow2_unfold(i + 1);
    lemma_pow2_pos(i);
    vstd::arithmetic::div_mod::lemma_div_denominator(e as int, pow2(i) as int, 2);
    assert(pow2(i) * 2 == pow2(i + 1));
    assert(e / pow2(i) == 2 * k + (e / pow2(i)) % 2);
    lemma_field_pow_add(a, k, k, exp);
    if bit(e, i) {
        let q = field_pow(a, 2 * k, exp);
        assert(field_pow(a, 2 * k + 1, exp) == field_mul(a, q, exp));
        lemma_field_mul_laws(a, q, 1, exp);
    }
}

/// The first division of the inversion, of the field's polynomial by the
/// element `a`: from the quotient `q0` and the remainder `r0` of the half
/// polynomial to those of the whole.
proof fn lemma_inv_start(a: nat, q0: nat, r0: nat, exp: u32)
    requires
        low_terms(exp).is_some(),
        2 <= a < pow2(exp as nat),
        modulus_poly(exp) / 2 == xor(clmul(q0, a), r0),
        bit_len(r0) < bit_len(a),
    ensures
        2 * q0 < pow2(exp as nat),
        2 * r0 + 1 < pow2(exp as nat),
        bit_len(2 * r0 + 1) <= bit_len(a),
        ({
            let t = 2 * r0 + 1;
            let q2 = if bit_len(t) == bit_len(a) { xor(2 * q0, 1) } else { 2 * q0 };
            let r2 = if bit_len(t) == bit_len(a) { xor(t, a) } else { t };
            &&& modulus_poly(exp) == xor(clmul(q2, a), r2)
            &&& bit_len(r2) < bit_len(a)
            &&& q2 < pow2(exp as nat)
            &&& r2 < pow2(exp as nat)
            &&& field_mul(q2, a, exp) == r2
        }),
{
    let pp = modulus_poly(exp);
    let e = exp as nat;
    lemma_modulus_shape(exp);
    lemma_bit_len_bound(a, e);
    reveal_with_fuel(bit_len, 3);
    assert(bit_len(a) >= 2);
    lemma_quotient_bit_len(pp / 2, q0, r0, a);
    assert(q0 != 0);
    assert(bit_len(q0) + bit_len(a) == e + 1);
    assert(bit_len(2 * q0) == bit_len(q0) + 1);
    lemma_bit_len_bound(2 * q0, e);
    let t = 2 * r0 + 1;
    assert(bit_len(t) == bit_len(r0) + 1);
    lemma_bit_len_bound(t, e);
    // the whole polynomial in terms of the first quotient and remainder
    lemma_clmul_halves(q0, a);
    lemma_clmul_comm(q0, a);
    lemma_clmul_comm(2 * q0, a);
    lemma_xor_double(clmul(q0, a), r0);
    assert(pp == xor(clmul(2 * q0, a), t));
    let q2 = if bit_len(t) == bit_len(a) { xor(2 * q0, 1) } else { 2 * q0 };
    let r2 = if bit_len(t) == bit_len(a) { xor(t, a) } else { t };
    if bit_len(t) == bit_len(a) {
        lemma_clmul_xor_left(2 * q0, 1, a);
        lemma_clmul_unit(a);
        lemma_xor4(clmul(2 * q0, a), a, t, a);
        lemma_xor_zero_self(a);
        lemma_xor_zero_self(xor(clmul(2 * q0, a), t));
        lemma_bit_len_xor(t, a);
        lemma_xor_double(q0, 0);
    }
    lemma_bit_len_bound(r2, e);
    // the quotient times the element is the remainder, modulo the polynomial
    lemma_xor_cancel(clmul(q2, a), r2);
    lemma_xor_comm(pp, r2);
    lemma_xor_comm(clmul(q2, a), r2);
    assert(clmul(q2, a) == xor(pp, r2)) by {
        lemma_xor_cancel(clmul(q2, a), r2);
    }
    lemma_rem_xor(pp, r2, pp);
    lemma_rem_multiple(1, pp);
    lemma_rem_small(r2, pp);
    lemma_xor_zero_self(r2);
}

/// One round of the inversion: where `v` and `u` times the element `a`
/// are `r` and `s` in the field, and `r` is `q` times `s` plus `r2`, the
/// next cofactor times `a` is `r2`.
proof fn lemma_inv_round(v: nat, u: nat, r: nat, s: nat, q: nat, r2: nat, a: nat, exp: u32)
    requires
        low_terms(exp).is_some(),
        field_mul(v, a, exp) == r,
        field_mul(u, a, exp) == s,
        r == xor(clmul(q, s), r2),
        r2 < pow2(exp as nat),
    ensures
        field_mul(xor(v, field_mul(q, u, exp)), a, exp) == r2,
{
    let pp = modulus_poly(exp);
    lemma_modulus_shape(exp);
    lemma_field_mul_xor(v, field_mul(q, u, exp), a, exp);
    lemma_field_mul_laws(q, u, a, exp);
    // q times s, reduced, is r plus r2
    lemma_rem_clmul(q, clmul(u, a), pp);
    lemma_xor_cancel(clmul(q, s), r2);
    assert(clmul(q, s) == xor(r, r2)) by {
        lemma_xor_comm(clmul(q, s), r2);
        lemma_xor_cancel(r2, clmul(q, s));
        lemma_xor_comm(r, r2);
        lemma_xor_assoc(clmul(q, s), r2, r2);
        lemma_xor_zero_self(r2);
        lemma_xor_zero_self(clmul(q, s));
    }
    lemma_rem_xor(r, r2, pp);
    lemma_rem_bound(clmul(v, a), pp);
    lemma_rem_small(r, pp);
    lemma_bit_len_bound(r2, exp as nat);
    lemma_rem_small(r2, pp);
    lemma_xor_cancel(r2, r);
    lemma_xor_comm(r, r2);
}

impl<const EXP: u32, const LIMBS: usize> BinaryField<EXP, LIMBS> {
    /// The element whose polynomial `value` spells, or `None` where
    /// `value` has a bit at or above `EXP`.
    pub fn new(value: Uint<LIMBS>) -> (r: Option<Self>)
        requires
            field_defined(EXP, LIMBS),
        ensures
            r.is_some() <==> value@ < pow2(EXP as nat),
            r matches Some(x) ==> x@ == value@ && x.well_formed(),
    {
        proof {
            lemma_bit_len_bound(value@, EXP as nat);
        }
        if value.bits() <= EXP {
            Some(Self(value))
        } else {
            None
        }
    }

    /// The polynomial of the element, as an integer.
    pub fn rep(&self) -> (r: Uint<LIMBS>)
        ensures
            r@ == self@,
    {
        self.0
    }

    /// An element drawn at random by the operating system's generator.
    pub fn random_new() -> (r: Self)
        requires
            field_defined(EXP, LIMBS),
        ensures
            r.well_formed(),
    {
        Self(Uint::<LIMBS>::random_bits(EXP))
    }

    /// The sum of two elements.
    pub fn add(self, rhs: Self) -> (r: Self)
        requires
            self.well_formed(),
            rhs.well_formed(),
        ensures
            r.well_formed(),
            r@ == xor(self@, rhs@),
    {
        proof {
            lemma_bit_len_bound(self@, EXP as nat);
            lemma_bit_len_bound(rhs@, EXP as nat);
            lemma_bit_len_xor(self@, rhs@);
            lemma_bit_len_xor(rhs@, self@);
            lemma_xor_comm(self@, rhs@);
            lemma_bit_len_bound(xor(self@, rhs@), EXP as nat);
        }
        Self(self.0.xor(&rhs.0))
    }

    /// The difference of two elements, which in characteristic two is
    /// their sum.
    pub fn sub(self, rhs: Self) -> (r: Self)
        requires
            self.well_formed(),
            rhs.well_formed(),
        ensures
            r.well_formed(),
            r@ == xor(self@, rhs@),
    {
        self.add(rhs)
    }

    /// The negative of an element, which in characteristic two is the
    /// element.
    pub fn neg(self) -> (r: Self)
        ensures
            r == self,
    {
        self
    }

    /// The product of two elements.
    pub fn mul(self, other: Self) -> (r: Self)
        requires
            field_defined(EXP, LIMBS),
            self.well_formed(),
            other.well_formed(),
        ensures
            r.well_formed(),
            r@ == field_mul(self@, other@, EXP),
    {
        proof {
            lemma_small_mod(self@, pow2(EXP as nat));
        }
        Self(Self::mul_reduce(self.0, other.0))
    }

    /// The quotient of two elements: `self` times the inverse of `other`,
    /// which is not zero.
    pub fn div(self, other: Self) -> (r: Self)
        requires
            field_defined(EXP, LIMBS),
            self.well_formed(),
            other.well_formed(),
            other@ != 0,
        ensures
            r.well_formed(),
            r@ == field_mul(self@, field_inv(other@, EXP), EXP),
    {
        let i = other.inv();
        self.mul(i)
    }
}

impl<const EXP: u32, const LIMBS: usize> Inv for BinaryField<EXP, LIMBS> {
    open spec fn invertible(&self) -> bool {
        field_defined(EXP, LIMBS) && self.well_formed() && self@ != 0
    }

    /// The inverse of an element other than zero, by Euclid's algorithm on
    /// the field's polynomial and the element: the one reduced element
    /// whose product with the element is one.
    fn inv(&self) -> (r: Self)
        ensures
            r.well_formed(),
            r@ != 0,
            field_mul(self@, r@, EXP) == 1,
            field_mul(r@, self@, EXP) == 1,
            r@ == field_inv(self@, EXP),
    {
        let ghost a = self@;
        let ghost pp = modulus_poly(EXP);
        let ghost m = pow2(EXP as nat);
        proof {
            lemma_table_irreducible(EXP);
            lemma_zero_has_no_inverse(a, EXP);
            lemma_low_terms(EXP);
            lemma_modulus_shape(EXP);
            lemma2_to64();
            lemma_bit_len_bound(a, EXP as nat);
            lemma_field_mul_laws(a, 1, 1, EXP);
            lemma_clmul_unit(a);
            lemma_clmul_unit(pp);
        }
        let one = Uint::<LIMBS>::one();
        if self.0.equals(&one) {
            proof {
                assert(divides(1, pp)) by {
                    assert(pp == clmul(pp, 1));
                }
                assert(divides(1, a)) by {
                    assert(a == clmul(a, 1));
                }
                lemma_field_inv_unique(a, 1, EXP);
            }
            return Self(one);
        }
        let low = match irreducible_low_terms(EXP) {
            Some(l) => l,
            None => 0,
        };
        let irred = Uint::<LIMBS>::from_u64(low);
        // the field's polynomial without its lowest term, divided by x
        proof {
            lemma_pow2_strictly_increases((EXP - 1) as nat, Uint::<LIMBS>::width());
            assert(1 * pow2((EXP - 1) as nat) == pow2((EXP - 1) as nat));
            lemma_small_mod(pow2((EXP - 1) as nat), pow2(Uint::<LIMBS>::width()));
            lemma_disjoint(low as nat / 2, 1, (EXP - 1) as nat);
        }
        let half = irred.shr(1).xor(&one.shl(EXP - 1));
        assert(half@ == pp / 2);
        let (q0, r0) = divrem(half, self.0);
        proof {
            lemma_inv_start(a, q0@, r0@, EXP);
            if EXP < Uint::<LIMBS>::width() {
                lemma_pow2_strictly_increases(EXP as nat, Uint::<LIMBS>::width());
            }
            lemma_small_mod(2 * q0@, pow2(Uint::<LIMBS>::width()));
            lemma_small_mod(2 * r0@, pow2(Uint::<LIMBS>::width()));
            lemma_xor_double(r0@, 0);
            lemma_xor_zero_self(r0@);
        }
        let mut q0 = q0.shl(1);
        let mut r0 = r0.shl(1).xor(&one);
        if r0.bits() == self.0.bits() {
            q0 = q0.xor(&one);
            r0 = r0.xor(&self.0);
        }
        let mut r = self.0;
        let mut s = r0;
        let mut v = one;
        let mut u = q0;
        let ghost mut al = q0@;
        let ghost mut be = 1nat;
        let ghost mut ga = 1nat;
        let ghost mut de = 0nat;
        proof {
            lemma_clmul_unit(s@);
            lemma_clmul_unit(r@);
            lemma_xor_zero_self(r@);
        }
        while !s.is_zero()
            invariant
                field_defined(EXP, LIMBS),
                a == self@,
                a != 0,
                pp == modulus_poly(EXP),
                m == pow2(EXP as nat),
                r@ < m,
                s@ < m,
                u@ < m,
                v@ < m,
                r@ != 0,
                bit_len(s@) < bit_len(r@),
                field_mul(v@, a, EXP) == r@,
                field_mul(u@, a, EXP) == s@,
                pp == xor(clmul(al, r@), clmul(be, s@)),
                a == xor(clmul(ga, r@), clmul(de, s@)),
            decreases bit_len(s@),
        {
            let (q, r2) = divrem(r, s);
            proof {
                lemma_bit_len_bound(s@, EXP as nat);
                lemma_bit_len_bound(r2@, EXP as nat);
                lemma_inv_round(v@, u@, r@, s@, q@, r2@, a, EXP);
                lemma_euclid_cofactors(pp, al, be, q@, r@, s@, r2@);
                lemma_euclid_cofactors(a, ga, de, q@, r@, s@, r2@);
                lemma_quotient_bit_len(r@, q@, r2@, s@);
                lemma_bit_len_bound(r@, EXP as nat);
                lemma_bit_len_bound(q@, EXP as nat);
                lemma_small_mod(q@, m);
                lemma_field_mul_laws(q@, u@, 1, EXP);
                lemma_bit_len_bound(v@, EXP as nat);
                lemma_bit_len_bound(field_mul(q@, u@, EXP), EXP as nat);
                lemma_bit_len_xor(v@, field_mul(q@, u@, EXP));
                lemma_bit_len_xor(field_mul(q@, u@, EXP), v@);
                lemma_xor_comm(v@, field_mul(q@, u@, EXP));
                lemma_bit_len_bound(xor(v@, field_mul(q@, u@, EXP)), EXP as nat);
                let al2 = xor(clmul(al, q@), be);
                let ga2 = xor(clmul(ga, q@), de);
                be = al;
                al = al2;
                de = ga;
                ga = ga2;
            }
            let qu = Self::mul_reduce(q, u);
            let next = v.xor(&qu);
            v = u;
            u = next;
            r = s;
            s = r2;
        }
        proof {
            lemma_clmul_unit(be);
            lemma_clmul_unit(de);
            lemma_xor_zero_self(clmul(al, r@));
            lemma_xor_zero_self(clmul(ga, r@));
            assert(divides(r@, pp));
            assert(divides(r@, a));
            lemma_field_mul_laws(v@, a, 1, EXP);
            lemma_irreducible_coprime(pp, a, al, ga, r@);
            lemma_field_inv_unique(a, v@, EXP);
        }
        Self(v)
    }
}

impl<const EXP: u32, const LIMBS: usize> AbelianMonoid for BinaryField<EXP, LIMBS> {
    type Uint = Uint<LIMBS>;

    open spec fn wf(&self) -> bool {
        field_defined(EXP, LIMBS) && self.well_formed()
    }

    /// All elements of the type belong to the one field of degree `EXP`.
    open spec fn structure(&self) -> nat {
        EXP as nat
    }

    /// The number of an element is its polynomial.
    open spec fn number(&self) -> nat {
        self@
    }

    fn equals(&self, other: &Self) -> (r: bool)
        ensures
            r == (self@ == other@),
    {
        self.0.equals(&other.0)
    }

    /// The element one.
    fn one(&self) -> (r: Self)
        ensures
            r@ == 1,
    {
        proof {
            lemma_modulus_shape(EXP);
        }
        Self(Uint::<LIMBS>::one())
    }

    /// The power of the element by `exponent`, by squaring and
    /// multiplying from the highest bit of the exponent down.
    fn pow(&self, exponent: &Uint<LIMBS>) -> (r: Self)
        ensures
            r@ == field_pow(self@, exponent@, EXP),
    {
        if exponent.is_zero() {
            return self.one();
        }
        let ghost a = self@;
        let ghost e = exponent@;
        let n = exponent.bits();
        proof {
            lemma_bit_len_range(e);
            lemma_field_mul_laws(a, 1, 1, EXP);
            assert(field_pow(a, 1, EXP) == field_mul(a, field_pow(a, 0, EXP), EXP));
        }
        let mut res = *self;
        let mut i = n - 1;
        while i > 0
            invariant
                field_defined(EXP, LIMBS),
                self.well_formed(),
                a == self@,
                e == exponent@,
                res.well_formed(),
                res@ == field_pow(a, e / pow2(i as nat), EXP),
            decreases i,
        {
            i = i - 1;
            proof {
                lemma_pow_round(a, e, i as nat, EXP);
            }
            res = res.mul(res);
            if exponent.bit(i) {
                res = res.mul(*self);
            }
        }
        proof {
            lemma2_to64();
            assert(e / 1 == e);
        }
        res
    }
}

impl<const EXP: u32, const LIMBS: usize> FiniteField for BinaryField<EXP, LIMBS> {
    /// The elements form a field wherever the table has a polynomial of
    /// the degree.
    open spec fn is_field(field: nat) -> bool {
        low_terms(EXP).is_some()
    }

    open spec fn size_of(field: nat) -> nat {
        pow2(EXP as nat)
    }

    open spec fn add_in(field: nat, a: nat, b: nat) -> nat {
        xor(a, b)
    }

    open spec fn sub_in(field: nat, a: nat, b: nat) -> nat {
        xor(a, b)
    }

    open spec fn mul_in(field: nat, a: nat, b: nat) -> nat {
        field_mul(a, b, EXP)
    }

    open spec fn inv_in(field: nat, a: nat) -> Option<nat> {
        if 0 < a < pow2(EXP as nat) {
            Some(field_inv(a, EXP))
        } else {
            None
        }
    }

    /// The element zero.
    fn zero(&self) -> (r: Self) {
        proof {
            lemma_pow2_pos(EXP as nat);
        }
        Self(Uint::<LIMBS>::zero())
    }

    fn random(&self) -> (r: Self) {
        Self::random_new()
    }

    /// The characteristic, two.
    fn char(&self) -> (r: Uint<LIMBS>)
        ensures
            r@ == 2,
    {
        proof {
            lemma_low_terms(EXP);
        }
        Uint::<LIMBS>::from_u64(2)
    }

    fn plus(&self, other: &Self) -> (r: Self) {
        self.add(*other)
    }

    fn minus(&self, other: &Self) -> (r: Self) {
        self.sub(*other)
    }

    fn times(&self, other: &Self) -> (r: Self) {
        self.mul(*other)
    }

    /// The inverse of an element other than zero.
    fn reciprocal(&self) -> (r: Option<Self>)
        ensures
            r.is_some() <==> self@ != 0,
    {
        if self.0.is_zero() {
            None
        } else {
            Some(self.inv())
        }
    }

    /// The element whose polynomial has the bits of `index`.
    fn element(&self, index: u64) -> (r: Option<Self>) {
        proof {
            lemma_low_terms(EXP);
        }
        Self::new(Uint::<LIMBS>::from_u64(index))
    }

    proof fn lemma_number_within(a: Self) {
    }

    proof fn lemma_same_element(a: Self, b: Self) {
        a.0.lemma_value(b.0);
    }

    proof fn lemma_field_size(field: nat) {
        lemma_modulus_shape(EXP);
    }

    proof fn lemma_field_laws(field: nat, a: nat, b: nat, c: nat) {
        lemma_modulus_shape(EXP);
        lemma_bit_len_bound(a, EXP as nat);
        lemma_bit_len_bound(b, EXP as nat);
        lemma_bit_len_xor(a, b);
        lemma_bit_len_xor(b, a);
        lemma_xor_comm(a, b);
        lemma_bit_len_bound(xor(a, b), EXP as nat);
        lemma_xor_assoc(a, b, c);
        lemma_xor_zero_self(a);
        lemma_xor_cancel(a, b);
        lemma_field_mul_laws(a, b, c, EXP);
        lemma_field_mul_laws(a, 1, 1, EXP);
        // a (b + c) = (b + c) a = b a + c a = a b + a c
        lemma_field_mul_xor(b, c, a, EXP);
        lemma_field_mul_laws(a, xor(b, c), 1, EXP);
        lemma_field_mul_laws(a, c, 1, EXP);
        if a != 0 {
            lemma_inverse_exists(a, EXP);
        }
    }

    proof fn lemma_difference_invertible(field: nat, a: nat, b: nat) {
        if xor(a, b) == 0 {
            lemma_xor_cancel(a, b);
            lemma_xor_zero_self(b);
        }
        lemma_bit_len_bound(a, EXP as nat);
        lemma_bit_len_bound(b, EXP as nat);
        lemma_bit_len_xor(a, b);
        lemma_bit_len_xor(b, a);
        lemma_xor_comm(a, b);
        lemma_bit_len_bound(xor(a, b), EXP as nat);
    }
}

/// Euclid's algorithm from any of its states: where `v` and `u` times `a`
/// are `r` and `s` in the field, and both the field's polynomial and `a`
/// are combinations of `r` and `s`, some multiple of `a` in the field is a
/// common divisor of the polynomial and of `a`.
proof fn lemma_euclid(
    v: nat,
    u: nat,
    r: nat,
    s: nat,
    al: nat,
    be: nat,
    ga: nat,
    de: nat,
    a: nat,
    exp: u32,
)
    requires
        low_terms(exp).is_some(),
        field_mul(v, a, exp) == r,
        field_mul(u, a, exp) == s,
        modulus_poly(exp) == xor(clmul(al, r), clmul(be, s)),
        a == xor(clmul(ga, r), clmul(de, s)),
        s == 0 || bit_len(s) < bit_len(r),
    ensures
        exists|i: nat|
            divides(#[trigger] field_mul(i, a, exp), modulus_poly(exp)) && divides(
                field_mul(i, a, exp),
                a,
            ),
    decreases bit_len(s),
{
    let pp = modulus_poly(exp);
    if s == 0 {
        lemma_clmul_unit(be);
        lemma_clmul_unit(de);
        lemma_xor_zero_self(clmul(al, r));
        lemma_xor_zero_self(clmul(ga, r));
        assert(divides(r, pp));
        assert(divides(r, a));
        assert(divides(field_mul(v, a, exp), pp) && divides(field_mul(v, a, exp), a));
    } else {
        let q = poly_quo(r, s);
        let r2 = poly_rem(r, s);
        lemma_quo_rem(r, s);
        lemma_field_mul_laws(u, a, 1, exp);
        lemma_bit_len_bound(s, exp as nat);
        lemma_bit_len_bound(r2, exp as nat);
        lemma_inv_round(v, u, r, s, q, r2, a, exp);
        lemma_euclid_cofactors(pp, al, be, q, r, s, r2);
        lemma_euclid_cofactors(a, ga, de, q, r, s, r2);
        reveal_with_fuel(bit_len, 1);
        lemma_euclid(
            u,
            xor(v, field_mul(q, u, exp)),
            s,
            r2,
            xor(clmul(al, q), be),
            al,
            xor(clmul(ga, q), de),
            ga,
            a,
            exp,
        );
    }
}

/// Every reduced element other than zero has an inverse: the polynomials
/// of the table are irreducible.
pub proof fn lemma_inverse_exists(b: nat, exp: u32)
    requires
        low_terms(exp).is_some(),
        0 < b < pow2(exp as nat),
    ensures
        field_inv(b, exp) < pow2(exp as nat),
        field_mul(b, field_inv(b, exp), exp) == 1,
{
    lemma_table_irreducible(exp);
    let pp = modulus_poly(exp);
    lemma_modulus_shape(exp);
    lemma_bit_len_bound(b, exp as nat);
    let u = poly_quo(pp, b);
    let s = poly_rem(pp, b);
    lemma_quo_rem(pp, b);
    lemma_field_mul_laws(b, 1, 1, exp);
    // the quotient times b is the remainder, modulo the polynomial
    assert(field_mul(u, b, exp) == s) by {
        lemma_xor_cancel(clmul(u, b), s);
        lemma_xor_comm(clmul(u, b), s);
        lemma_xor_comm(pp, s);
        lemma_rem_xor(pp, s, pp);
        lemma_rem_multiple(1, pp);
        lemma_rem_small(s, pp);
        lemma_xor_zero_self(s);
    }
    lemma_clmul_unit(s);
    lemma_clmul_unit(b);
    lemma_xor_zero_self(b);
    lemma_euclid(1, u, b, s, u, 1, 1, 0, b, exp);
    let i = choose|i: nat|
        divides(#[trigger] field_mul(i, b, exp), pp) && divides(field_mul(i, b, exp), b);
    let g = field_mul(i, b, exp);
    let al = choose|k: nat| pp == clmul(k, g);
    let ga = choose|k: nat| b == clmul(k, g);
    lemma_irreducible_coprime(pp, b, al, ga, g);
    let j = poly_rem(i, pp);
    lemma_rem_clmul(i, b, pp);
    lemma_rem_bound(i, pp);
    lemma_bit_len_bound(j, exp as nat);
    lemma_field_mul_laws(j, b, 1, exp);
    lemma_field_inv_unique(b, j, exp);
}

/// Every element is its own negative: the sum of an element and itself
/// is zero.
pub proof fn law_add_self(a: nat)
    ensures
        xor(a, a) == 0,
{
    lemma_xor_zero_self(a);
}

/// Adding an element and taking it away again gives back the first.
pub proof fn law_add_sub(a: nat, b: nat)
    ensures
        xor(xor(a, b), b) == a,
{
    lemma_xor_cancel(a, b);
}

/// Every reduced element other than zero has an inverse, and multiplying
/// by an element `b` other than zero and then by the inverse of `b` gives
/// back the first element.
pub proof fn law_mul_inverse(a: nat, b: nat, exp: u32)
    requires
        low_terms(exp).is_some(),
        a < pow2(exp as nat),
        0 < b < pow2(exp as nat),
    ensures
        field_inv(b, exp) < pow2(exp as nat),
        field_mul(b, field_inv(b, exp), exp) == 1,
        field_mul(field_mul(a, b, exp), field_inv(b, exp), exp) == a,
{
    lemma_table_irreducible(exp);
    lemma_inverse_exists(b, exp);
    let i = field_inv(b, exp);
    lemma_field_mul_laws(a, b, i, exp);
    lemma_field_mul_laws(a, 1, 1, exp);
}

/// The elements other than zero of the field of degree `exp`.
pub open spec fn nonzero_elements(exp: u32) -> spec_fn(nat) -> bool {
    |x: nat| 0 < x < pow2(exp as nat)
}

/// Multiplication in the field of degree `exp`.
pub open spec fn mul_elements(exp: u32) -> spec_fn(nat, nat) -> nat {
    |x: nat, y: nat| field_mul(x, y, exp)
}

/// The product of two elements other than zero is not zero.
proof fn lemma_nonzero_product(x: nat, y: nat, exp: u32)
    requires
        low_terms(exp).is_some(),
        0 < x < pow2(exp as nat),
        0 < y < pow2(exp as nat),
    ensures
        0 < field_mul(x, y, exp) < pow2(exp as nat),
{
    lemma_table_irreducible(exp);
    lemma_field_mul_laws(x, y, 1, exp);
    if field_mul(x, y, exp) == 0 {
        // y = (1/x) (x y) = 0
        lemma_inverse_exists(x, exp);
        let i = field_inv(x, exp);
        lemma_field_mul_laws(i, x, y, exp);
        lemma_field_mul_laws(x, i, 1, exp);
        lemma_field_mul_laws(y, 1, 1, exp);
        lemma_clmul_unit(i);
        lemma_modulus_shape(exp);
        assert(poly_rem(0, modulus_poly(exp)) == 0);
    }
}

/// The elements other than zero form a group under multiplication.
proof fn lemma_elements_group(exp: u32)
    requires
        low_terms(exp).is_some(),
    ensures
        is_group(nonzero_elements(exp), mul_elements(exp), 1),
        lists(
            Seq::new((pow2(exp as nat) - 1) as nat, |i: int| (i + 1) as nat),
            nonzero_elements(exp),
        ),
{
    lemma_table_irreducible(exp);
    let g = nonzero_elements(exp);
    let op = mul_elements(exp);
    lemma_modulus_shape(exp);
    assert(closed(g, op)) by {
        reveal(closed);
        assert forall|x: nat, y: nat| g(x) && g(y) implies g(#[trigger] op(x, y)) by {
            lemma_nonzero_product(x, y, exp);
        }
    }
    assert(commutative(g, op)) by {
        reveal(commutative);
        assert forall|x: nat, y: nat| g(x) && g(y) implies #[trigger] op(x, y) == op(y, x) by {
            lemma_field_mul_laws(x, y, 1, exp);
        }
    }
    assert(associative(g, op)) by {
        reveal(associative);
        assert forall|x: nat, y: nat, z: nat| g(x) && g(y) && g(z) implies #[trigger] op(
            op(x, y),
            z,
        ) == op(x, op(y, z)) by {
            lemma_field_mul_laws(x, y, z, exp);
        }
    }
    assert(neutral(g, op, 1)) by {
        reveal(neutral);
        assert forall|x: nat| g(x) implies #[trigger] op(1, x) == x by {
            lemma_field_mul_laws(x, 1, 1, exp);
        }
    }
    assert(invertible(g, op, 1)) by {
        reveal(invertible);
        assert forall|x: nat| #[trigger] g(x) implies exists|y: nat| g(y) && #[trigger] op(x, y)
            == 1 by {
            lemma_inverse_exists(x, exp);
            let i = field_inv(x, exp);
            lemma_clmul_unit(x);
            assert(poly_rem(0, modulus_poly(exp)) == 0);
            assert(g(i) && op(x, i) == 1);
        }
    }
    let s = Seq::new((pow2(exp as nat) - 1) as nat, |i: int| (i + 1) as nat);
    assert forall|x: nat| g(x) <==> s.contains(x) by {
        if g(x) {
            assert(s[x - 1] == x);
        }
    }
}

/// The power in the group of elements is the power in the field.
proof fn lemma_element_power(a: nat, k: nat, exp: u32)
    ensures
        power(a, k, mul_elements(exp), 1) == field_pow(a, k, exp),
    decreases k,
{
    if k > 0 {
        lemma_element_power(a, (k - 1) as nat, exp);
    }
}

/// In the field of `2^exp` elements, the power of an element other than
/// zero by `2^exp - 1` is one.
pub proof fn law_power_by_order(a: nat, exp: u32)
    requires
        low_terms(exp).is_some(),
        0 < a < pow2(exp as nat),
    ensures
        field_pow(a, (pow2(exp as nat) - 1) as nat, exp) == 1,
{
    lemma_table_irreducible(exp);
    lemma_elements_group(exp);
    let s = Seq::new((pow2(exp as nat) - 1) as nat, |i: int| (i + 1) as nat);
    lemma_power_by_order(s, a, nonzero_elements(exp), mul_elements(exp), 1);
    lemma_element_power(a, (pow2(exp as nat) - 1) as nat, exp);
}

impl<const EXP: u32, const LIMBS: usize> BinaryField<EXP, LIMBS> {
    /// The element with the polynomial `v`.
    pub closed spec fn of(v: nat) -> Self {
        choose|r: Self| r@ == v
    }

    /// An element is the element with its polynomial.
    pub proof fn lemma_of(self)
        ensures
            Self::of(self@) == self,
    {
        let r = Self::of(self@);
        assert(r@ == self@);
        self.0.lemma_value(r.0);
    }
}

/// `a * b` is the product `a.mul(b)`.
impl<const EXP: u32, const LIMBS: usize> std::ops::Mul for BinaryField<EXP, LIMBS> {
    type Output = Self;

    fn mul(self, rhs: Self) -> (r: Self) {
        let r = BinaryField::mul(self, rhs);
        proof {
            r.lemma_of();
        }
        r
    }
}

/// What `a * b` asks for and gives.
impl<const EXP: u32, const LIMBS: usize> vstd::std_specs::ops::MulSpecImpl for BinaryField<EXP, LIMBS> {
    open spec fn obeys_mul_spec() -> bool {
        true
    }

    open spec fn mul_req(self, rhs: Self) -> bool {
        field_defined(EXP, LIMBS) && self.well_formed() && rhs.well_formed()
    }

    open spec fn mul_spec(self, rhs: Self) -> Self {
        Self::of(field_mul(self@, rhs@, EXP))
    }
}

/// `a + b` is the sum `a.add(b)`.
impl<const EXP: u32, const LIMBS: usize> std::ops::Add for BinaryField<EXP, LIMBS> {
    type Output = Self;

    fn add(self, rhs: Self) -> (r: Self) {
        let r = BinaryField::add(self, rhs);
        proof {
            r.lemma_of();
        }
        r
    }
}

/// What `a + b` asks for and gives.
impl<const EXP: u32, const LIMBS: usize> vstd::std_specs::ops::AddSpecImpl for BinaryField<EXP, LIMBS> {
    open spec fn obeys_add_spec() -> bool {
        true
    }

    open spec fn add_req(self, rhs: Self) -> bool {
        self.well_formed() && rhs.well_formed()
    }

    open spec fn add_spec(self, rhs: Self) -> Self {
        Self::of(xor(self@, rhs@))
    }
}

/// `a - b` is the difference `a.sub(b)`.
impl<const EXP: u32, const LIMBS: usize> std::ops::Sub for BinaryField<EXP, LIMBS> {
    type Output = Self;

    fn sub(self, rhs: Self) -> (r: Self) {
        let r = BinaryField::sub(self, rhs);
        proof {
            r.lemma_of();
        }
        r
    }
}

/// What `a - b` asks for and gives.
impl<const EXP: u32, const LIMBS: usize> vstd::std_specs::ops::SubSpecImpl for BinaryField<EXP, LIMBS> {
    open spec fn obeys_sub_spec() -> bool {
        true
    }

    open spec fn sub_req(self, rhs: Self) -> bool {
        self.well_formed() && rhs.well_formed()
    }

    open spec fn sub_spec(self, rhs: Self) -> Self {
        Self::of(xor(self@, rhs@))
    }
}

/// `a / b` is the quotient `a.div(b)`.
impl<const EXP: u32, const LIMBS: usize> std::ops::Div for BinaryField<EXP, LIMBS> {
    type Output = Self;

    fn div(self, rhs: Self) -> (r: Self) {
        let r = BinaryField::div(self, rhs);
        proof {
            r.lemma_of();
        }
        r
    }
}

/// What `a / b` asks for and gives.
impl<const EXP: u32, const LIMBS: usize> vstd::std_specs::ops::DivSpecImpl for BinaryField<EXP, LIMBS> {
    open spec fn obeys_div_spec() -> bool {
        true
    }

    open spec fn div_req(self, rhs: Self) -> bool {
        field_defined(EXP, LIMBS) && self.well_formed() && rhs.well_formed() && rhs@ != 0
    }

    open spec fn div_spec(self, rhs: Self) -> Self {
        Self::of(field_mul(self@, field_inv(rhs@, EXP), EXP))
    }
}

/// `-a` is the negative `a.neg()`.
impl<const EXP: u32, const LIMBS: usize> std::ops::Neg for BinaryField<EXP, LIMBS> {
    type Output = Self;

    fn neg(self) -> (r: Self) {
        self
    }
}

/// What `-a` asks for and gives.
impl<const EXP: u32, const LIMBS: usize> vstd::std_specs::ops::NegSpecImpl for BinaryField<EXP, LIMBS> {
    open spec fn obeys_neg_spec() -> bool {
        true
    }

    open spec fn neg_req(self) -> bool {
        true
    }

    open spec fn neg_spec(self) -> Self {
        self
    }
}

} // verus!
