//! Commutative multiplicative structures.

use crate::math::modular::{
    add_mod, gcd_odd, inv_mod, mul_mod, neg_mod, pow_mod, random_mod, random_odd, reduce, sub_mod,
    valid_modulus,
};
use crate::math::number::{
    gcd, is_inverse, lemma_coprime_inverse, lemma_coprime_mul, lemma_coprime_pow,
    lemma_gcd_basics, lemma_gcd_reduce,
    lemma_gcd_sym, lemma_inverse_coprime, lemma_inverse_unique, mod_inverse,
};
use crate::math::uint::{Odd, Uint};
use vstd::arithmetic::div_mod::{lemma_mod_bound, lemma_small_mod};
use vstd::arithmetic::power::pow;
use vstd::prelude::*;

verus! {

/// A value with a multiplicative inverse.
pub trait Inv: Sized {
    /// Whether the value has an inverse.
    spec fn invertible(&self) -> bool;

    /// The inverse.
    fn inv(&self) -> (r: Self)
        requires
            self.invertible(),
    ;
}

/// An element of a commutative monoid under multiplication.
pub trait AbelianMonoid: Copy + Sized {
    /// The integers that serve as exponents.
    type Uint;

    /// Whether the element is a valid member of its structure.
    spec fn wf(&self) -> bool;

    /// Which structure the element belongs to: elements of one structure
    /// can be combined.
    spec fn structure(&self) -> nat;

    /// The number of the element within its structure.
    spec fn number(&self) -> nat;

    /// Whether the two elements are the same.
    fn equals(&self, other: &Self) -> (r: bool)
        ensures
            r == (*self == *other),
    ;

    /// The neutral element of the structure that `self` belongs to.
    fn one(&self) -> (r: Self)
        requires
            self.wf(),
        ensures
            r.wf(),
            r.structure() == self.structure(),
            r.number() == 1,
    ;

    /// `self` multiplied by itself `exponent` times.
    fn pow(&self, exponent: &Self::Uint) -> (r: Self)
        requires
            self.wf(),
        ensures
            r.wf(),
            r.structure() == self.structure(),
    ;
}

/// An element of a commutative group under multiplication.
pub trait AbelianGroup: AbelianMonoid + Inv {

}

impl<T: AbelianMonoid + Inv> AbelianGroup for T {

}

/// An odd modulus of three or more.
#[derive(Debug, Clone, Copy, PartialEq, Eq)]
pub struct Modulus<const LIMBS: usize>(Uint<LIMBS>);

impl<const LIMBS: usize> View for Modulus<LIMBS> {
    type V = nat;

    closed spec fn view(&self) -> nat {
        self.0@
    }
}

/// A residue: its least representative and its modulus.
pub struct Residue {
    pub rep: nat,
    pub modulus: nat,
}

/// A residue modulo an odd number, held by its least representative.
/// Where the representative is coprime to the modulus the residue is a
/// member of the group of units.
#[derive(Debug, Clone, Copy, PartialEq, Eq)]
pub struct UnitGroup<const LIMBS: usize> {
    rep: Uint<LIMBS>,
    modulus: Uint<LIMBS>,
}

impl<const LIMBS: usize> View for UnitGroup<LIMBS> {
    type V = Residue;

    closed spec fn view(&self) -> Residue {
        Residue { rep: self.rep@, modulus: self.modulus@ }
    }
}

impl<const LIMBS: usize> Modulus<LIMBS> {
    /// Whether the modulus is odd and at least three.
    pub open spec fn well_formed(&self) -> bool {
        valid_modulus(self@)
    }

    /// The modulus `modulus`, which is three or more.
    pub fn from(modulus: Odd<LIMBS>) -> (r: Self)
        requires
            modulus@ >= 3,
        ensures
            r.well_formed(),
            r@ == modulus@,
    {
        Modulus(modulus.get())
    }

    /// A modulus drawn at random by the operating system's generator. A
    /// draw of one, which is no modulus, is replaced by three.
    pub fn from_random() -> (r: Self)
        requires
            LIMBS >= 1,
        ensures
            r.well_formed(),
    {
        let drawn = random_odd::<LIMBS>();
        if drawn.equals(&Uint::one()) {
            Modulus(Uint::from_u64(3))
        } else {
            Modulus(drawn)
        }
    }

    /// The modulus as an odd integer.
    pub fn to_odd(&self) -> (r: Odd<LIMBS>)
        requires
            self.well_formed(),
        ensures
            r@ == self@,
    {
        Odd::from_odd(self.0)
    }

    /// The residue of `value`, where `value` is coprime to the modulus.
    pub fn make(&self, value: &Uint<LIMBS>) -> (r: Option<UnitGroup<LIMBS>>)
        requires
            self.well_formed(),
        ensures
            r.is_some() <==> gcd(value@, self@) == 1,
            r matches Some(u) ==> u.wf() && u.is_unit() && u@.modulus == self@ && u@.rep == value@
                % self@,
    {
        proof {
            lemma_gcd_reduce(value@, self@);
            lemma_gcd_sym(value@, self@);
            lemma_mod_bound(value@ as int, self@ as int);
        }
        let g = gcd_odd(&self.0, value);
        if g.equals(&Uint::one()) {
            Some(UnitGroup { rep: reduce(value, &self.0), modulus: self.0 })
        } else {
            None
        }
    }

    /// The least residue of `value`.
    pub fn residue(&self, value: &Uint<LIMBS>) -> (r: Uint<LIMBS>)
        requires
            self.well_formed(),
        ensures
            r@ == value@ % self@,
    {
        reduce(value, &self.0)
    }

    /// A unit drawn at random by the operating system's generator: numbers
    /// below the modulus are drawn until one is coprime to it. The bound
    /// on the number of draws is out of reach in practice; past it the
    /// result is one.
    pub fn random_make(&self) -> (r: UnitGroup<LIMBS>)
        requires
            self.well_formed(),
        ensures
            r.wf(),
            r.is_unit(),
            r@.modulus == self@,
    {
        let mut draws: usize = 0;
        while draws < usize::MAX
            invariant
                self.well_formed(),
            decreases usize::MAX - draws,
        {
            let value = random_mod(&self.0);
            if let Some(unit) = self.make(&value) {
                return unit;
            }
            draws += 1;
        }
        proof {
            lemma_gcd_basics(self@);
            lemma_small_mod(1, self@);
        }
        UnitGroup { rep: Uint::one(), modulus: self.0 }
    }
}

impl<const LIMBS: usize> UnitGroup<LIMBS> {
    /// Whether the residue is a unit: coprime to its modulus.
    pub open spec fn is_unit(&self) -> bool {
        gcd(self@.rep, self@.modulus) == 1
    }

    /// The residue with the representative `rep` modulo `modulus`.
    pub(crate) fn from_parts(rep: Uint<LIMBS>, modulus: Uint<LIMBS>) -> (r: Self)
        requires
            valid_modulus(modulus@),
            rep@ < modulus@,
        ensures
            r.wf(),
            r@.rep == rep@,
            r@.modulus == modulus@,
    {
        UnitGroup { rep, modulus }
    }

    /// The modulus.
    pub fn modulus(&self) -> (r: Uint<LIMBS>)
        ensures
            r@ == self@.modulus,
    {
        self.modulus
    }

    /// The least representative.
    pub fn rep(&self) -> (r: Uint<LIMBS>)
        ensures
            r@ == self@.rep,
    {
        self.rep
    }

    /// The product of two residues of one modulus.
    pub fn mul(self, other: Self) -> (r: Self)
        requires
            self.wf(),
            other.wf(),
            self@.modulus == other@.modulus,
        ensures
            r.wf(),
            r@.modulus == self@.modulus,
            r@.rep == (self@.rep * other@.rep) % self@.modulus,
            self.is_unit() && other.is_unit() ==> r.is_unit(),
    {
        proof {
            lemma_mod_bound((self@.rep * other@.rep) as int, self@.modulus as int);
            if self.is_unit() && other.is_unit() {
                lemma_coprime_mul(self@.rep, other@.rep, self@.modulus);
            }
        }
        UnitGroup { rep: mul_mod(&self.rep, &other.rep, &self.modulus), modulus: self.modulus }
    }

    /// The quotient of two residues of one modulus: `self` times the
    /// inverse of `other`, which is a unit.
    pub fn div(self, other: Self) -> (r: Self)
        requires
            self.wf(),
            other.wf(),
            other.is_unit(),
            self@.modulus == other@.modulus,
        ensures
            r.wf(),
            r@.modulus == self@.modulus,
            r@.rep == (self@.rep * mod_inverse(other@.rep, self@.modulus)) % self@.modulus,
    {
        let i = other.inv();
        self.mul(i)
    }

    /// The inverse of the residue, or `None` where it is no unit.
    pub fn checked_inv(&self) -> (r: Option<Self>)
        requires
            self.wf(),
        ensures
            r.is_some() <==> self.is_unit(),
            r matches Some(i) ==> i.wf() && i.is_unit() && i@.modulus == self@.modulus && i@.rep
                == mod_inverse(self@.rep, self@.modulus),
    {
        proof {
            lemma_coprime_inverse(self@.rep, self@.modulus);
        }
        match inv_mod(&self.rep, &self.modulus) {
            Some(i) => {
                proof {
                    lemma_inverse_unique(self@.rep, i@, self@.modulus);
                    lemma_inverse_coprime(self@.rep, i@, self@.modulus);
                }
                Some(UnitGroup { rep: i, modulus: self.modulus })
            },
            None => {
                proof {
                    if self.is_unit() {
                        let i = choose|i: nat| is_inverse(self@.rep, i, self@.modulus);
                        assert((self@.rep * i) % self@.modulus == 1);
                    }
                }
                None
            },
        }
    }

    /// The residue of minus one.
    pub fn minus_one(&self) -> (r: Self)
        requires
            self.wf(),
        ensures
            r.wf(),
            r.is_unit(),
            r@.modulus == self@.modulus,
            r@.rep == self@.modulus - 1,
    {
        proof {
            lemma_gcd_basics(self@.modulus);
            self.modulus.lemma_value(self.modulus);
        }
        let one = Uint::one();
        UnitGroup { rep: self.modulus.wrapping_sub(&one), modulus: self.modulus }
    }
}

impl<const LIMBS: usize> Inv for UnitGroup<LIMBS> {
    open spec fn invertible(&self) -> bool {
        self.wf() && self.is_unit()
    }

    /// The inverse of a unit.
    fn inv(&self) -> (r: Self)
        ensures
            r.wf(),
            r.is_unit(),
            r@.modulus == self@.modulus,
            r@.rep == mod_inverse(self@.rep, self@.modulus),
            (self@.rep * r@.rep) % self@.modulus == 1,
    {
        proof {
            lemma_coprime_inverse(self@.rep, self@.modulus);
            let i = choose|i: nat| is_inverse(self@.rep, i, self@.modulus);
            lemma_inverse_unique(self@.rep, i, self@.modulus);
        }
        match self.checked_inv() {
            Some(i) => i,
            None => *self,
        }
    }
}

impl<const LIMBS: usize> AbelianMonoid for UnitGroup<LIMBS> {
    type Uint = Uint<LIMBS>;

    open spec fn wf(&self) -> bool {
        valid_modulus(self@.modulus) && self@.rep < self@.modulus
    }

    /// The structure of a residue is its modulus.
    open spec fn structure(&self) -> nat {
        self@.modulus
    }

    /// The number of a residue is its least representative.
    open spec fn number(&self) -> nat {
        self@.rep
    }

    fn equals(&self, other: &Self) -> (r: bool)
        ensures
            r == (self@ == other@),
    {
        self.rep.equals(&other.rep) && self.modulus.equals(&other.modulus)
    }

    /// The residue of one.
    fn one(&self) -> (r: Self)
        ensures
            r.is_unit(),
            r@.modulus == self@.modulus,
            r@.rep == 1,
    {
        proof {
            lemma_gcd_basics(self@.modulus);
        }
        UnitGroup { rep: Uint::one(), modulus: self.modulus }
    }

    /// The power of the residue by `exponent`.
    fn pow(&self, exponent: &Uint<LIMBS>) -> (r: Self)
        ensures
            r@.modulus == self@.modulus,
            r@.rep == pow(self@.rep as int, exponent@) % (self@.modulus as int),
            self.is_unit() ==> r.is_unit(),
    {
        proof {
            lemma_mod_bound(pow(self@.rep as int, exponent@), self@.modulus as int);
            if self.is_unit() {
                lemma_coprime_pow(self@.rep, exponent@, self@.modulus);
            }
        }
        UnitGroup { rep: pow_mod(&self.rep, exponent, &self.modulus), modulus: self.modulus }
    }
}

impl<const LIMBS: usize> UnitGroup<LIMBS> {
    /// The residue with the least representative `rep` modulo `modulus`.
    pub closed spec fn of(rep: nat, modulus: nat) -> Self {
        choose|r: Self| r@.rep == rep && r@.modulus == modulus
    }

    /// A residue is the residue with its representative and its modulus.
    pub proof fn lemma_of(self)
        ensures
            Self::of(self@.rep, self@.modulus) == self,
    {
        let r = Self::of(self@.rep, self@.modulus);
        assert(r@.rep == self@.rep && r@.modulus == self@.modulus);
        self.rep.lemma_value(r.rep);
        self.modulus.lemma_value(r.modulus);
    }
}

/// `a * b` is the product `a.mul(b)`.
impl<const LIMBS: usize> std::ops::Mul for UnitGroup<LIMBS> {
    type Output = Self;

    fn mul(self, rhs: Self) -> (r: Self) {
        let r = UnitGroup::mul(self, rhs);
        proof {
            r.lemma_of();
        }
        r
    }
}

/// What `a * b` asks for and gives.
impl<const LIMBS: usize> vstd::std_specs::ops::MulSpecImpl for UnitGroup<LIMBS> {
    open spec fn obeys_mul_spec() -> bool {
        true
    }

    open spec fn mul_req(self, rhs: Self) -> bool {
        self.wf() && rhs.wf() && self@.modulus == rhs@.modulus
    }

    open spec fn mul_spec(self, rhs: Self) -> Self {
        Self::of((self@.rep * rhs@.rep) % self@.modulus, self@.modulus)
    }
}

} // verus!
