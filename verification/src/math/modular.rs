//! Arithmetic modulo an odd number, done by `crypto_bigint` in Montgomery
//! form and stated here over the numbers that go in and come out.

use crate::math::number::gcd;
use crate::math::uint::Uint;
use vstd::arithmetic::power::pow;
use vstd::prelude::*;

verus! {

/// What the wrappers ask of a modulus: an odd number of three or more.
pub open spec fn valid_modulus(n: nat) -> bool {
    n % 2 == 1 && n >= 3
}

/// `crypto_bigint::Gcd::gcd` of an odd number and a number: their
/// greatest common divisor.
#[verifier::external_body]
pub(crate) fn gcd_odd<const LIMBS: usize>(n: &Uint<LIMBS>, v: &Uint<LIMBS>) -> (r: Uint<LIMBS>)
    requires
        valid_modulus(n@),
    ensures
        r@ == gcd(n@, v@),
{
    let odd = crypto_bigint::Odd::new(crypto_bigint::BoxedUint::from_words(n.limbs)).unwrap();
    let other = crypto_bigint::BoxedUint::from_words(v.limbs);
    let g = crypto_bigint::Gcd::gcd(&odd, &other);
    Uint { limbs: g.to_words().as_ref().try_into().unwrap() }
}

/// `crypto_bigint::modular::MontyForm::new` and `retrieve`: the residue of
/// `v` modulo `n`.
#[verifier::external_body]
pub(crate) fn reduce<const LIMBS: usize>(v: &Uint<LIMBS>, n: &Uint<LIMBS>) -> (r: Uint<LIMBS>)
    requires
        valid_modulus(n@),
    ensures
        r@ == v@ % n@,
{
    let odd = crypto_bigint::Odd::new(crypto_bigint::Uint::<LIMBS>::from_words(n.limbs)).unwrap();
    let params = crypto_bigint::modular::MontyParams::new_vartime(odd);
    let x = crypto_bigint::Uint::<LIMBS>::from_words(v.limbs);
    Uint { limbs: crypto_bigint::modular::MontyForm::new(&x, params).retrieve().to_words() }
}

/// `crypto_bigint::modular::MontyForm::add`: the sum modulo `n`.
#[verifier::external_body]
pub(crate) fn add_mod<const LIMBS: usize>(a: &Uint<LIMBS>, b: &Uint<LIMBS>, n: &Uint<LIMBS>) -> (r:
    Uint<LIMBS>)
    requires
        valid_modulus(n@),
    ensures
        r@ == (a@ + b@) % n@,
{
    let odd = crypto_bigint::Odd::new(crypto_bigint::Uint::<LIMBS>::from_words(n.limbs)).unwrap();
    let params = crypto_bigint::modular::MontyParams::new_vartime(odd);
    let x = crypto_bigint::modular::MontyForm::new(&crypto_bigint::Uint::from_words(a.limbs), params);
    let y = crypto_bigint::modular::MontyForm::new(&crypto_bigint::Uint::from_words(b.limbs), params);
    Uint { limbs: x.add(&y).retrieve().to_words() }
}

/// `crypto_bigint::modular::MontyForm::sub`: the difference modulo `n`.
#[verifier::external_body]
pub(crate) fn sub_mod<const LIMBS: usize>(a: &Uint<LIMBS>, b: &Uint<LIMBS>, n: &Uint<LIMBS>) -> (r:
    Uint<LIMBS>)
    requires
        valid_modulus(n@),
    ensures
        r@ == (a@ - b@) % (n@ as int),
{
    let odd = crypto_bigint::Odd::new(crypto_bigint::Uint::<LIMBS>::from_words(n.limbs)).unwrap();
    let params = crypto_bigint::modular::MontyParams::new_vartime(odd);
    let x = crypto_bigint::modular::MontyForm::new(&crypto_bigint::Uint::from_words(a.limbs), params);
    let y = crypto_bigint::modular::MontyForm::new(&crypto_bigint::Uint::from_words(b.limbs), params);
    Uint { limbs: x.sub(&y).retrieve().to_words() }
}

/// `crypto_bigint::modular::MontyForm::neg`: the negative modulo `n`.
#[verifier::external_body]
pub(crate) fn neg_mod<const LIMBS: usize>(a: &Uint<LIMBS>, n: &Uint<LIMBS>) -> (r: Uint<LIMBS>)
    requires
        valid_modulus(n@),
    ensures
        r@ == (-(a@ as int)) % (n@ as int),
{
    let odd = crypto_bigint::Odd::new(crypto_bigint::Uint::<LIMBS>::from_words(n.limbs)).unwrap();
    let params = crypto_bigint::modular::MontyParams::new_vartime(odd);
    let x = crypto_bigint::modular::MontyForm::new(&crypto_bigint::Uint::from_words(a.limbs), params);
    Uint { limbs: x.neg().retrieve().to_words() }
}

/// `crypto_bigint::modular::MontyForm::mul`: the product modulo `n`.
#[verifier::external_body]
pub(crate) fn mul_mod<const LIMBS: usize>(a: &Uint<LIMBS>, b: &Uint<LIMBS>, n: &Uint<LIMBS>) -> (r:
    Uint<LIMBS>)
    requires
        valid_modulus(n@),
    ensures
        r@ == (a@ * b@) % n@,
{
    let odd = crypto_bigint::Odd::new(crypto_bigint::Uint::<LIMBS>::from_words(n.limbs)).unwrap();
    let params = crypto_bigint::modular::MontyParams::new_vartime(odd);
    let x = crypto_bigint::modular::MontyForm::new(&crypto_bigint::Uint::from_words(a.limbs), params);
    let y = crypto_bigint::modular::MontyForm::new(&crypto_bigint::Uint::from_words(b.limbs), params);
    Uint { limbs: x.mul(&y).retrieve().to_words() }
}

/// `crypto_bigint::modular::MontyForm::pow`: the power modulo `n`.
#[verifier::external_body]
pub(crate) fn pow_mod<const LIMBS: usize>(a: &Uint<LIMBS>, e: &Uint<LIMBS>, n: &Uint<LIMBS>) -> (r:
    Uint<LIMBS>)
    requires
        valid_modulus(n@),
    ensures
        r@ == pow(a@ as int, e@) % (n@ as int),
{
    let odd = crypto_bigint::Odd::new(crypto_bigint::Uint::<LIMBS>::from_words(n.limbs)).unwrap();
    let params = crypto_bigint::modular::MontyParams::new_vartime(odd);
    let x = crypto_bigint::modular::MontyForm::new(&crypto_bigint::Uint::from_words(a.limbs), params);
    let exponent = crypto_bigint::Uint::<LIMBS>::from_words(e.limbs);
    Uint { limbs: x.pow(&exponent).retrieve().to_words() }
}

/// `crypto_bigint::modular::BoxedMontyForm::invert`: the inverse of `a`
/// modulo `n`, or `None` where `a` has none.
#[verifier::external_body]
pub(crate) fn inv_mod<const LIMBS: usize>(a: &Uint<LIMBS>, n: &Uint<LIMBS>) -> (r: Option<
    Uint<LIMBS>,
>)
    requires
        valid_modulus(n@),
        a@ < n@,
    ensures
        match r {
            Some(i) => i@ < n@ && (a@ * i@) % n@ == 1,
            None => forall|i: nat| #[trigger] ((a@ * i) % n@) != 1,
        },
{
    let odd = crypto_bigint::Odd::new(crypto_bigint::BoxedUint::from_words(n.limbs)).unwrap();
    let params = crypto_bigint::modular::BoxedMontyParams::new_vartime(odd);
    let x = crypto_bigint::BoxedUint::from_words(a.limbs);
    let form = crypto_bigint::modular::BoxedMontyForm::new(x, params);
    match Option::<crypto_bigint::modular::BoxedMontyForm>::from(form.invert()) {
        Some(i) => Some(Uint { limbs: i.retrieve().to_words().as_ref().try_into().unwrap() }),
        None => None,
    }
}

/// `crypto_bigint::RandomMod::random_mod` on the operating system's
/// generator: a number below `n`, whichever is drawn.
#[verifier::external_body]
pub(crate) fn random_mod<const LIMBS: usize>(n: &Uint<LIMBS>) -> (r: Uint<LIMBS>)
    requires
        n@ != 0,
    ensures
        r@ < n@,
{
    let bound = crypto_bigint::NonZero::new(crypto_bigint::Uint::<LIMBS>::from_words(n.limbs)).unwrap();
    let mut rng = crypto_bigint::rand_core::OsRng;
    let drawn: crypto_bigint::Uint<LIMBS> = crypto_bigint::RandomMod::random_mod(&mut rng, &bound);
    Uint { limbs: drawn.to_words() }
}

/// `crypto_bigint::Random::random` for odd numbers, on the operating
/// system's generator: an odd number, whichever is drawn.
#[verifier::external_body]
pub(crate) fn random_odd<const LIMBS: usize>() -> (r: Uint<LIMBS>)
    requires
        LIMBS >= 1,
    ensures
        r@ % 2 == 1,
{
    let mut rng = crypto_bigint::rand_core::OsRng;
    let drawn: crypto_bigint::Odd<crypto_bigint::Uint<LIMBS>> = crypto_bigint::Random::random(&mut rng);
    Uint { limbs: drawn.get().to_words() }
}

} // verus!
