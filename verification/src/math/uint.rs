//! Unsigned integers of a fixed number of 64-bit limbs.
//!
//! The limbs are plain data; the arithmetic on them is done by
//! `crypto_bigint`, whose operations are stated here over the number that
//! the limbs spell.

use crate::math::bits;
use vstd::arithmetic::power2::{lemma_pow2_adds, lemma_pow2_pos, pow2};
use vstd::array::array_fill_for_copy_types;
use vstd::prelude::*;

verus! {

/// The number that `limbs` spell, least significant limb first.
pub open spec fn limbs_value(limbs: Seq<u64>) -> nat
    decreases limbs.len(),
{
    if limbs.len() == 0 {
        0
    } else {
        limbs[0] as nat + pow2(64) * limbs_value(limbs.drop_first())
    }
}

/// Limbs that are all zero spell zero.
pub proof fn lemma_zero_limbs(limbs: Seq<u64>)
    requires
        forall|i: int| 0 <= i < limbs.len() ==> limbs[i] == 0,
    ensures
        limbs_value(limbs) == 0,
    decreases limbs.len(),
{
    if limbs.len() > 0 {
        lemma_zero_limbs(limbs.drop_first());
        assert(pow2(64) * 0 == 0);
    }
}

/// `n` limbs spell a number below `2^(64 n)`.
pub proof fn lemma_limbs_bound(limbs: Seq<u64>)
    ensures
        limbs_value(limbs) < pow2(64 * limbs.len()),
    decreases limbs.len(),
{
    if limbs.len() == 0 {
        lemma_pow2_pos(0);
    } else {
        let rest = limbs.drop_first();
        lemma_limbs_bound(rest);
        lemma_pow2_adds(64, 64 * rest.len());
        vstd::arithmetic::power2::lemma2_to64();
        let hi = limbs_value(rest);
        let top = pow2(64 * rest.len());
        assert(pow2(64) * hi + pow2(64) <= pow2(64) * top) by (nonlinear_arith)
            requires
                hi < top,
        ;
    }
}

/// Two limb strings of one length that spell the same number are equal.
pub proof fn lemma_limbs_injective(a: Seq<u64>, b: Seq<u64>)
    requires
        a.len() == b.len(),
        limbs_value(a) == limbs_value(b),
    ensures
        a == b,
    decreases a.len(),
{
    if a.len() == 0 {
        assert(a =~= b);
    } else {
        vstd::arithmetic::power2::lemma2_to64();
        let x = limbs_value(a.drop_first());
        let y = limbs_value(b.drop_first());
        let p = pow2(64);
        let a0 = a[0] as nat;
        let b0 = b[0] as nat;
        assert(x == y && a0 == b0) by (nonlinear_arith)
            requires
                a0 + p * x == b0 + p * y,
                a0 < p,
                b0 < p,
        ;
        lemma_limbs_injective(a.drop_first(), b.drop_first());
        assert(a =~= seq![a[0]] + a.drop_first());
        assert(b =~= seq![b[0]] + b.drop_first());
    }
}

/// An unsigned integer below `2^(64 * LIMBS)`.
#[derive(Debug, Clone, Copy, PartialEq, Eq, Hash)]
pub struct Uint<const LIMBS: usize> {
    pub limbs: [u64; LIMBS],
}

impl<const LIMBS: usize> View for Uint<LIMBS> {
    type V = nat;

    open spec fn view(&self) -> nat {
        limbs_value(self.limbs@)
    }
}

impl<const LIMBS: usize> Uint<LIMBS> {
    /// The width in bits.
    pub open spec fn width() -> nat {
        64 * (LIMBS as nat)
    }

    /// Every value lies below `2^width`, and the value determines the limbs.
    pub proof fn lemma_value(self, other: Self)
        ensures
            self@ < pow2(Self::width()),
            self@ == other@ <==> self == other,
    {
        lemma_limbs_bound(self.limbs@);
        if self@ == other@ {
            lemma_limbs_injective(self.limbs@, other.limbs@);
            assert(self.limbs == other.limbs);
        }
    }

    /// Zero.
    pub fn zero() -> (r: Self)
        ensures
            r@ == 0,
    {
        let r = Uint { limbs: array_fill_for_copy_types(0u64) };
        proof {
            lemma_zero_limbs(r.limbs@);
        }
        r
    }

    /// The integer `x`.
    pub fn from_u64(x: u64) -> (r: Self)
        requires
            LIMBS >= 1,
        ensures
            r@ == x,
    {
        let mut limbs: [u64; LIMBS] = array_fill_for_copy_types(0u64);
        limbs[0] = x;
        proof {
            lemma_zero_limbs(limbs@.drop_first());
            assert(pow2(64) * 0 == 0);
        }
        Uint { limbs }
    }

    /// One.
    pub fn one() -> (r: Self)
        requires
            LIMBS >= 1,
        ensures
            r@ == 1,
    {
        Self::from_u64(1)
    }

    /// Whether the two integers are the same.
    pub fn equals(&self, other: &Self) -> (r: bool)
        ensures
            r == (self@ == other@),
            r == (*self == *other),
    {
        let mut i: usize = 0;
        while i < LIMBS
            invariant
                i <= LIMBS,
                forall|j: int| 0 <= j < i ==> self.limbs@[j] == other.limbs@[j],
            decreases LIMBS - i,
        {
            if self.limbs[i] != other.limbs[i] {
                proof {
                    self.lemma_value(*other);
                }
                return false;
            }
            i += 1;
        }
        assert(self.limbs@ =~= other.limbs@);
        assert(self.limbs == other.limbs);
        true
    }

    /// Whether the integer is zero.
    pub fn is_zero(&self) -> (r: bool)
        ensures
            r == (self@ == 0),
    {
        let z = Self::zero();
        self.equals(&z)
    }

    /// Whether the integer is odd.
    pub fn is_odd(&self) -> (r: bool)
        ensures
            r == (self@ % 2 == 1),
    {
        if LIMBS == 0 {
            false
        } else {
            let low = self.limbs[0];
            proof {
                vstd::arithmetic::power2::lemma2_to64();
                let hi = limbs_value(self.limbs@.drop_first());
                assert((low as nat + pow2(64) * hi) % 2 == (low as nat) % 2) by (nonlinear_arith)
                    requires
                        pow2(64) == 0x10000000000000000,
                ;
            }
            low % 2 == 1
        }
    }

    /// `crypto_bigint::Uint::bitxor`: the bitwise exclusive or.
    #[verifier::external_body]
    pub(crate) fn xor(&self, other: &Self) -> (r: Self)
        ensures
            r@ == bits::xor(self@, other@),
    {
        let a = crypto_bigint::Uint::<LIMBS>::from_words(self.limbs);
        let b = crypto_bigint::Uint::<LIMBS>::from_words(other.limbs);
        Uint { limbs: a.bitxor(&b).to_words() }
    }

    /// `crypto_bigint::Uint::bitand`: the bitwise and.
    #[verifier::external_body]
    pub(crate) fn and(&self, other: &Self) -> (r: Self)
        ensures
            r@ == bits::and(self@, other@),
    {
        let a = crypto_bigint::Uint::<LIMBS>::from_words(self.limbs);
        let b = crypto_bigint::Uint::<LIMBS>::from_words(other.limbs);
        Uint { limbs: a.bitand(&b).to_words() }
    }

    /// `crypto_bigint::Uint::bitor`: the bitwise or.
    #[verifier::external_body]
    pub(crate) fn or(&self, other: &Self) -> (r: Self)
        ensures
            r@ == bits::or(self@, other@),
    {
        let a = crypto_bigint::Uint::<LIMBS>::from_words(self.limbs);
        let b = crypto_bigint::Uint::<LIMBS>::from_words(other.limbs);
        Uint { limbs: a.bitor(&b).to_words() }
    }

    /// `crypto_bigint::Uint::shl`: the bits move up by `shift` places and
    /// those that leave the width are lost. The outside function panics on
    /// a shift of the whole width or more.
    #[verifier::external_body]
    pub(crate) fn shl(&self, shift: u32) -> (r: Self)
        requires
            shift < Self::width(),
        ensures
            r@ == (self@ * pow2(shift as nat)) % pow2(Self::width()),
    {
        let a = crypto_bigint::Uint::<LIMBS>::from_words(self.limbs);
        Uint { limbs: a.shl(shift).to_words() }
    }

    /// `crypto_bigint::Uint::shr`: the bits move down by `shift` places. The
    /// outside function panics on a shift of the whole width or more.
    #[verifier::external_body]
    pub(crate) fn shr(&self, shift: u32) -> (r: Self)
        requires
            shift < Self::width(),
        ensures
            r@ == self@ / pow2(shift as nat),
    {
        let a = crypto_bigint::Uint::<LIMBS>::from_words(self.limbs);
        Uint { limbs: a.shr(shift).to_words() }
    }

    /// `crypto_bigint::Uint::bits`: the number of bits needed to write the
    /// integer, where the width can be counted in a `u32`.
    #[verifier::external_body]
    pub(crate) fn bits(&self) -> (r: u32)
        requires
            64 * LIMBS <= u32::MAX,
        ensures
            r == bits::bit_len(self@),
    {
        crypto_bigint::Uint::<LIMBS>::from_words(self.limbs).bits()
    }

    /// `crypto_bigint::Uint::bit_vartime`: whether the bit at `index` is
    /// set; no bit is set at or above the width.
    #[verifier::external_body]
    pub(crate) fn bit(&self, index: u32) -> (r: bool)
        ensures
            r == bits::bit(self@, index as nat),
    {
        crypto_bigint::Uint::<LIMBS>::from_words(self.limbs).bit_vartime(index)
    }

    /// `crypto_bigint::Uint::trailing_zeros`: the number of zero bits below
    /// the lowest set bit, and the whole width for zero, where the width
    /// can be counted in a `u32`.
    #[verifier::external_body]
    pub(crate) fn trailing_zeros(&self) -> (r: u32)
        requires
            64 * LIMBS <= u32::MAX,
        ensures
            self@ != 0 ==> r == bits::low_zeros(self@),
            self@ == 0 ==> r == Self::width(),
    {
        crypto_bigint::Uint::<LIMBS>::from_words(self.limbs).trailing_zeros()
    }

    /// `crypto_bigint::Uint::wrapping_sub`: the difference, wrapped round
    /// at `2^width`.
    #[verifier::external_body]
    pub(crate) fn wrapping_sub(&self, other: &Self) -> (r: Self)
        ensures
            r@ == if self@ >= other@ {
                self@ - other@
            } else {
                self@ + pow2(Self::width()) - other@
            },
    {
        let a = crypto_bigint::Uint::<LIMBS>::from_words(self.limbs);
        let b = crypto_bigint::Uint::<LIMBS>::from_words(other.limbs);
        Uint { limbs: a.wrapping_sub(&b).to_words() }
    }

    /// `crypto_bigint::RandomBits::random_bits` on the operating system's
    /// generator: a number below `2^bit_length`, whichever is drawn. The
    /// outside function panics on a length above the width.
    #[verifier::external_body]
    pub(crate) fn random_bits(bit_length: u32) -> (r: Self)
        requires
            bit_length <= Self::width(),
        ensures
            r@ < pow2(bit_length as nat),
    {
        let mut rng = crypto_bigint::rand_core::OsRng;
        let drawn: crypto_bigint::Uint<LIMBS> = crypto_bigint::RandomBits::random_bits(&mut rng, bit_length);
        Uint { limbs: drawn.to_words() }
    }
}

/// An odd integer.
#[derive(Debug, Clone, Copy, PartialEq, Eq, Hash)]
pub struct Odd<const LIMBS: usize>(Uint<LIMBS>);

impl<const LIMBS: usize> View for Odd<LIMBS> {
    type V = nat;

    closed spec fn view(&self) -> nat {
        self.0@
    }
}

impl<const LIMBS: usize> Odd<LIMBS> {
    #[verifier::type_invariant]
    spec fn is_odd(self) -> bool {
        self.0@ % 2 == 1
    }

    /// Accepts `value` exactly when it is odd.
    pub fn new(value: Uint<LIMBS>) -> (r: Option<Self>)
        ensures
            r.is_some() <==> value@ % 2 == 1,
            r matches Some(o) ==> o@ == value@,
    {
        if value.is_odd() {
            Some(Odd(value))
        } else {
            None
        }
    }

    /// The odd integer `value`.
    pub fn from_odd(value: Uint<LIMBS>) -> (r: Self)
        requires
            value@ % 2 == 1,
        ensures
            r@ == value@,
    {
        Odd(value)
    }

    /// The integer, which is odd.
    pub fn get(&self) -> (r: Uint<LIMBS>)
        ensures
            r@ == self@,
            r@ % 2 == 1,
    {
        proof {
            use_type_invariant(self);
        }
        self.0
    }
}

} // verus!
