//! The prime fields GF(p).
//!
//! An element of a prime field is a residue modulo the prime; the residues
//! other than zero are the units.

use crate::math::abel::{AbelianMonoid, UnitGroup};
use crate::math::fermat::{fermat_power, PrimeModulus};
use crate::math::group::{
    associative, closed, commutative, invertible, is_group, lemma_power_by_order, lists, neutral,
    power,
};
use crate::math::galois::FiniteField;
use crate::math::modular::{add_mod, neg_mod, reduce, sub_mod};
use crate::math::number::{
    gcd, is_prime, lemma_coprime_inverse, lemma_gcd_divides, lemma_inverse_unique,
    lemma_mul_inverse_cancels, mod_inverse,
};
use crate::math::uint::Uint;
use vstd::arithmetic::div_mod::{
    lemma_add_mod_noop, lemma_mod_bound, lemma_small_mod, lemma_sub_mod_noop,
};
use vstd::arithmetic::power::pow;
use vstd::prelude::*;

verus! {

/// An element of a prime field: a residue modulo the field's prime.
pub type PrimeField<const LIMBS: usize> = UnitGroup<LIMBS>;

impl<const LIMBS: usize> UnitGroup<LIMBS> {
    /// The sum of two residues of one modulus.
    pub fn add(self, other: Self) -> (r: Self)
        requires
            self.wf(),
            other.wf(),
            self@.modulus == other@.modulus,
        ensures
            r.wf(),
            r@.modulus == self@.modulus,
            r@.rep == (self@.rep + other@.rep) % self@.modulus,
    {
        proof {
            lemma_mod_bound((self@.rep + other@.rep) as int, self@.modulus as int);
        }
        UnitGroup::from_parts(
            add_mod(&self.rep(), &other.rep(), &self.modulus()),
            self.modulus(),
        )
    }

    /// The difference of two residues of one modulus.
    pub fn sub(self, other: Self) -> (r: Self)
        requires
            self.wf(),
            other.wf(),
            self@.modulus == other@.modulus,
        ensures
            r.wf(),
            r@.modulus == self@.modulus,
            r@.rep == (self@.rep - other@.rep) % (self@.modulus as int),
    {
        proof {
            lemma_mod_bound(self@.rep - other@.rep, self@.modulus as int);
        }
        UnitGroup::from_parts(
            sub_mod(&self.rep(), &other.rep(), &self.modulus()),
            self.modulus(),
        )
    }

    /// The negative of a residue.
    pub fn neg(self) -> (r: Self)
        requires
            self.wf(),
        ensures
            r.wf(),
            r@.modulus == self@.modulus,
            r@.rep == (-(self@.rep as int)) % (self@.modulus as int),
    {
        proof {
            lemma_mod_bound(-(self@.rep as int), self@.modulus as int);
        }
        UnitGroup::from_parts(neg_mod(&self.rep(), &self.modulus()), self.modulus())
    }
}

impl<const LIMBS: usize> FiniteField for UnitGroup<LIMBS> {
    /// The residues form a field where the modulus is prime.
    open spec fn is_field(field: nat) -> bool {
        is_prime(field)
    }

    open spec fn size_of(field: nat) -> nat {
        field
    }

    open spec fn add_in(field: nat, a: nat, b: nat) -> nat {
        (a + b) % field
    }

    open spec fn sub_in(field: nat, a: nat, b: nat) -> nat {
        ((a - b) % (field as int)) as nat
    }

    open spec fn mul_in(field: nat, a: nat, b: nat) -> nat {
        (a * b) % field
    }

    open spec fn inv_in(field: nat, a: nat) -> Option<nat> {
        if gcd(a, field) == 1 {
            Some(mod_inverse(a, field))
        } else {
            None
        }
    }

    /// The residue of zero.
    fn zero(&self) -> (r: Self) {
        UnitGroup::from_parts(Uint::zero(), self.modulus())
    }

    /// A residue drawn at random by the operating system's generator.
    fn random(&self) -> (r: Self) {
        PrimeModulus::of(self).random_make()
    }

    /// The characteristic: the modulus.
    fn char(&self) -> (r: Uint<LIMBS>)
        ensures
            r@ == self@.modulus,
    {
        self.modulus()
    }

    fn plus(&self, other: &Self) -> (r: Self) {
        self.add(*other)
    }

    fn minus(&self, other: &Self) -> (r: Self) {
        proof {
            lemma_mod_bound(self@.rep - other@.rep, self@.modulus as int);
        }
        self.sub(*other)
    }

    fn times(&self, other: &Self) -> (r: Self) {
        self.mul(*other)
    }

    /// The inverse of a unit.
    fn reciprocal(&self) -> (r: Option<Self>)
        ensures
            r.is_some() <==> self.is_unit(),
    {
        self.checked_inv()
    }

    /// The residue of `index`, where that is below the modulus.
    fn element(&self, index: u64) -> (r: Option<Self>) {
        let modulus = self.modulus();
        proof {
            if LIMBS == 0 {
                crate::math::uint::lemma_zero_limbs(modulus.limbs@);
            }
        }
        let value = Uint::<LIMBS>::from_u64(index);
        let reduced = reduce(&value, &modulus);
        proof {
            lemma_mod_bound(index as int, self@.modulus as int);
            if index < self@.modulus {
                lemma_small_mod(index as nat, self@.modulus);
            }
        }
        if reduced.equals(&value) {
            Some(UnitGroup::from_parts(reduced, modulus))
        } else {
            None
        }
    }

    proof fn lemma_number_within(a: Self) {
    }

    proof fn lemma_same_element(a: Self, b: Self) {
        a.lemma_of();
        b.lemma_of();
    }

    proof fn lemma_field_size(field: nat) {
    }

    proof fn lemma_field_laws(field: nat, a: nat, b: nat, c: nat) {
        let p = field as int;
        lemma_mod_bound((a + b) as int, p);
        lemma_mod_bound(a - b, p);
        lemma_mod_bound((a * b) as int, p);
        assert(a * b == b * a) by (nonlinear_arith);
        // sums
        lemma_add_mod_noop((a + b) as int, c as int, p);
        lemma_add_mod_noop(a as int, (b + c) as int, p);
        lemma_small_mod(a, field);
        lemma_small_mod(b, field);
        lemma_small_mod(c, field);
        lemma_add_mod_noop(a - b, b as int, p);
        // products
        lemma_mul_mod_assoc(a, b, c, field);
        assert(a * 1 == a);
        vstd::arithmetic::div_mod::lemma_mul_mod_noop_general(a as int, (b + c) as int, p);
        lemma_add_mod_noop((a * b) as int, (a * c) as int, p);
        assert(a * (b + c) == a * b + a * c) by (nonlinear_arith);
        if a != 0 {
            lemma_prime_coprime(a, field);
            lemma_coprime_inverse(a, field);
            let i = choose|i: nat| crate::math::number::is_inverse(a, i, field);
            lemma_inverse_unique(a, i, field);
        }
    }

    proof fn lemma_difference_invertible(field: nat, a: nat, b: nat) {
        let d = ((a - b) % (field as int)) as nat;
        lemma_mod_bound(a - b, field as int);
        if a > b {
            lemma_small_mod((a - b) as nat, field);
        } else {
            vstd::arithmetic::div_mod::lemma_mod_multiples_vanish(1, a - b, field as int);
            assert(field * 1 + (a - b) == a + field - b);
            lemma_small_mod((a + field - b) as nat, field);
        }
        lemma_prime_coprime(d, field);
    }
}

/// Adding a residue and taking it away again gives back the first.
pub proof fn law_add_sub(a: nat, b: nat, n: nat)
    requires
        n > 0,
        a < n,
        b < n,
    ensures
        (((a + b) % n) - b) % (n as int) == a,
{
    lemma_sub_mod_noop((a + b) as int, b as int, n as int);
    lemma_small_mod(b, n);
    lemma_small_mod(a, n);
}

/// A number below a prime, other than zero, is coprime to it.
pub proof fn lemma_prime_coprime(b: nat, p: nat)
    requires
        is_prime(p),
        0 < b < p,
    ensures
        gcd(b, p) == 1,
{
    let g = gcd(b, p);
    lemma_gcd_divides(b, p);
    let kb = choose|k: nat| b == #[trigger] (k * g);
    let kp = choose|k: nat| p == #[trigger] (k * g);
    assert(g != 0) by (nonlinear_arith)
        requires
            b == kb * g,
            b > 0,
    ;
    assert(g <= b) by (nonlinear_arith)
        requires
            b == kb * g,
            b > 0,
    ;
    if g > 1 {
        vstd::arithmetic::div_mod::lemma_mod_multiples_basic(kp as int, g as int);
        assert(p % g == 0);
    }
}

/// Modulo a prime, multiplying by a residue `b` other than zero and then
/// by the inverse of `b` gives back the first residue.
pub proof fn law_mul_div(a: nat, b: nat, p: nat)
    requires
        is_prime(p),
        a < p,
        0 < b < p,
    ensures
        gcd(b, p) == 1,
        mod_inverse(b, p) < p,
        (b * mod_inverse(b, p)) % p == 1,
        (((a * b) % p) * mod_inverse(b, p)) % p == a,
{
    lemma_prime_coprime(b, p);
    lemma_coprime_inverse(b, p);
    let i = choose|i: nat| crate::math::number::is_inverse(b, i, p);
    lemma_inverse_unique(b, i, p);
    lemma_mul_inverse_cancels(a, b, i, p);
}

/// The residues other than zero modulo `p`.
pub open spec fn nonzero_residues(p: nat) -> spec_fn(nat) -> bool {
    |x: nat| 0 < x < p
}

/// Multiplication modulo `p`.
pub open spec fn mul_residues(p: nat) -> spec_fn(nat, nat) -> nat {
    |x: nat, y: nat| (x * y) % p
}

/// The product of two residues other than zero modulo a prime is not zero.
proof fn lemma_nonzero_product(x: nat, y: nat, p: nat)
    requires
        is_prime(p),
        0 < x < p,
        0 < y < p,
    ensures
        0 < (x * y) % p < p,
{
    lemma_prime_coprime(x, p);
    lemma_prime_coprime(y, p);
    crate::math::number::lemma_coprime_mul(x, y, p);
    crate::math::number::lemma_gcd_basics(p);
    lemma_mod_bound((x * y) as int, p as int);
}

/// Multiplication modulo `p` is associative.
proof fn lemma_mul_mod_assoc(x: nat, y: nat, z: nat, p: nat)
    requires
        p > 0,
    ensures
        (((x * y) % p) * z) % p == (x * ((y * z) % p)) % p,
{
    vstd::arithmetic::div_mod::lemma_mul_mod_noop_general((x * y) as int, z as int, p as int);
    vstd::arithmetic::div_mod::lemma_mul_mod_noop_general(x as int, (y * z) as int, p as int);
    assert((x * y) * z == x * (y * z)) by (nonlinear_arith);
}

/// The residues other than zero modulo a prime form a group under
/// multiplication.
proof fn lemma_residues_group(p: nat)
    requires
        is_prime(p),
    ensures
        is_group(nonzero_residues(p), mul_residues(p), 1),
        lists(Seq::new((p - 1) as nat, |i: int| (i + 1) as nat), nonzero_residues(p)),
{
    let g = nonzero_residues(p);
    let op = mul_residues(p);
    assert(closed(g, op)) by {
        reveal(closed);
        assert forall|x: nat, y: nat| g(x) && g(y) implies g(#[trigger] op(x, y)) by {
            lemma_nonzero_product(x, y, p);
        }
    }
    assert(commutative(g, op)) by {
        reveal(commutative);
        assert forall|x: nat, y: nat| g(x) && g(y) implies #[trigger] op(x, y) == op(y, x) by {
            assert(x * y == y * x) by (nonlinear_arith);
        }
    }
    assert(associative(g, op)) by {
        reveal(associative);
        assert forall|x: nat, y: nat, z: nat| g(x) && g(y) && g(z) implies #[trigger] op(
            op(x, y),
            z,
        ) == op(x, op(y, z)) by {
            lemma_mul_mod_assoc(x, y, z, p);
        }
    }
    assert(neutral(g, op, 1)) by {
        reveal(neutral);
        assert forall|x: nat| g(x) implies #[trigger] op(1, x) == x by {
            assert(1 * x == x);
            lemma_small_mod(x, p);
        }
    }
    assert(invertible(g, op, 1)) by {
        reveal(invertible);
        assert forall|x: nat| #[trigger] g(x) implies exists|y: nat| g(y) && #[trigger] op(x, y)
            == 1 by {
            lemma_prime_coprime(x, p);
            lemma_coprime_inverse(x, p);
            let i = choose|i: nat| crate::math::number::is_inverse(x, i, p);
            assert(x * 0 == 0);
            lemma_small_mod(0, p);
            assert(g(i) && op(x, i) == 1);
        }
    }
    let s = Seq::new((p - 1) as nat, |i: int| (i + 1) as nat);
    assert forall|x: nat| g(x) <==> s.contains(x) by {
        if g(x) {
            assert(s[x - 1] == x);
        }
    }
}

/// The power in the group of residues is the power of the number, reduced.
proof fn lemma_residue_power(a: nat, k: nat, p: nat)
    requires
        p >= 2,
    ensures
        power(a, k, mul_residues(p), 1) == pow(a as int, k) % (p as int),
    decreases k,
{
    if k == 0 {
        vstd::arithmetic::power::lemma_pow0(a as int);
        lemma_small_mod(1, p);
    } else {
        lemma_residue_power(a, (k - 1) as nat, p);
        let rest = pow(a as int, (k - 1) as nat);
        assert(pow(a as int, k) == a * rest) by {
            reveal(pow);
        }
        vstd::arithmetic::div_mod::lemma_mul_mod_noop_general(a as int, rest, p as int);
    }
}

/// Fermat's little theorem: modulo a prime `p`, the power of a residue
/// other than zero by `p - 1` is one. Every such residue passes Fermat's
/// test.
pub proof fn law_fermat(a: nat, p: nat)
    requires
        is_prime(p),
        0 < a < p,
    ensures
        fermat_power(a, p) == 1,
{
    lemma_residues_group(p);
    let s = Seq::new((p - 1) as nat, |i: int| (i + 1) as nat);
    lemma_power_by_order(s, a, nonzero_residues(p), mul_residues(p), 1);
    lemma_residue_power(a, (p - 1) as nat, p);
}

/// `a + b` is the sum `a.add(b)`.
impl<const LIMBS: usize> std::ops::Add for UnitGroup<LIMBS> {
    type Output = Self;

    fn add(self, rhs: Self) -> (r: Self) {
        let r = UnitGroup::add(self, rhs);
        proof {
            r.lemma_of();
        }
        r
    }
}

/// What `a + b` asks for and gives.
impl<const LIMBS: usize> vstd::std_specs::ops::AddSpecImpl for UnitGroup<LIMBS> {
    open spec fn obeys_add_spec() -> bool {
        true
    }

    open spec fn add_req(self, rhs: Self) -> bool {
        self.wf() && rhs.wf() && self@.modulus == rhs@.modulus
    }

    open spec fn add_spec(self, rhs: Self) -> Self {
        Self::of((self@.rep + rhs@.rep) % self@.modulus, self@.modulus)
    }
}

/// `a - b` is the difference `a.sub(b)`.
impl<const LIMBS: usize> std::ops::Sub for UnitGroup<LIMBS> {
    type Output = Self;

    fn sub(self, rhs: Self) -> (r: Self) {
        proof {
            lemma_mod_bound(self@.rep - rhs@.rep, self@.modulus as int);
        }
        let r = UnitGroup::sub(self, rhs);
        proof {
            r.lemma_of();
        }
        r
    }
}

/// What `a - b` asks for and gives.
impl<const LIMBS: usize> vstd::std_specs::ops::SubSpecImpl for UnitGroup<LIMBS> {
    open spec fn obeys_sub_spec() -> bool {
        true
    }

    open spec fn sub_req(self, rhs: Self) -> bool {
        self.wf() && rhs.wf() && self@.modulus == rhs@.modulus
    }

    open spec fn sub_spec(self, rhs: Self) -> Self {
        Self::of(((self@.rep - rhs@.rep) % (self@.modulus as int)) as nat, self@.modulus)
    }
}

/// `a / b` is the quotient `a.div(b)`.
impl<const LIMBS: usize> std::ops::Div for UnitGroup<LIMBS> {
    type Output = Self;

    fn div(self, rhs: Self) -> (r: Self) {
        let r = UnitGroup::div(self, rhs);
        proof {
            r.lemma_of();
        }
        r
    }
}

/// What `a / b` asks for and gives.
impl<const LIMBS: usize> vstd::std_specs::ops::DivSpecImpl for UnitGroup<LIMBS> {
    open spec fn obeys_div_spec() -> bool {
        true
    }

    open spec fn div_req(self, rhs: Self) -> bool {
        self.wf() && rhs.wf() && rhs.is_unit() && self@.modulus == rhs@.modulus
    }

    open spec fn div_spec(self, rhs: Self) -> Self {
        Self::of((self@.rep * mod_inverse(rhs@.rep, self@.modulus)) % self@.modulus, self@.modulus)
    }
}

/// `-a` is the negative `a.neg()`.
impl<const LIMBS: usize> std::ops::Neg for UnitGroup<LIMBS> {
    type Output = Self;

    fn neg(self) -> (r: Self) {
        proof {
            lemma_mod_bound(-(self@.rep as int), self@.modulus as int);
        }
        let r = UnitGroup::neg(self);
        proof {
            r.lemma_of();
        }
        r
    }
}

/// What `-a` asks for and gives.
impl<const LIMBS: usize> vstd::std_specs::ops::NegSpecImpl for UnitGroup<LIMBS> {
    open spec fn obeys_neg_spec() -> bool {
        true
    }

    open spec fn neg_req(self) -> bool {
        self.wf()
    }

    open spec fn neg_spec(self) -> Self {
        Self::of(((-(self@.rep as int)) % (self@.modulus as int)) as nat, self@.modulus)
    }
}

} // verus!
