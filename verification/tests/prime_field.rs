use dense::math::abel::{AbelianMonoid, Inv, Modulus};
use dense::math::fermat::{
    FermatTester, MillerRabinTester, PrimeModulus, PseudoPrimalityTester, MAX_ITERTIME,
};
use dense::math::galois::FiniteField;
use dense::math::uint::{Odd, Uint};

fn num(x: u64) -> Uint<1> {
    Uint::from_u64(x)
}

fn modulus(n: u64) -> Modulus<1> {
    Modulus::from(Odd::new(num(n)).unwrap())
}

fn prime(p: u64) -> PrimeModulus<1> {
    PrimeModulus::try_from(Odd::new(num(p)).unwrap()).unwrap()
}

#[test]
fn units_of_a_composite_modulus() {
    let m = modulus(15);
    for v in 0..40u64 {
        let unit = m.make(&num(v));
        let coprime = v % 3 != 0 && v % 5 != 0;
        assert_eq!(unit.is_some(), coprime);
        if let Some(u) = unit {
            assert_eq!(u.rep(), num(v % 15));
            assert_eq!(u.modulus(), num(15));
            assert_eq!(u.mul(u.inv()).rep(), num(1));
        }
    }
    let a = m.make(&num(7)).unwrap();
    let b = m.make(&num(13)).unwrap();
    assert_eq!(a.mul(b).rep(), num(1));
    assert_eq!(a.inv().rep(), num(13));
    assert_eq!(a.div(b).rep(), num(4));
    assert_eq!(a.one().rep(), num(1));
    assert_eq!(a.minus_one().rep(), num(14));
    assert_eq!(a.pow(&num(0)).rep(), num(1));
    assert_eq!(a.pow(&num(2)).rep(), num(4));
    assert_eq!(a.pow(&num(3)).rep(), num(13));
    assert_eq!(a.pow(&num(4)).rep(), num(1));
    assert_eq!(m.to_odd().get(), num(15));
}

#[test]
fn random_units_are_units() {
    let m = modulus(3 * 5 * 7 * 11);
    for _ in 0..50 {
        let u = m.random_make();
        let r = u.rep().limbs[0];
        assert!(r < 1155);
        assert!(r % 3 != 0 && r % 5 != 0 && r % 7 != 0 && r % 11 != 0);
        assert_eq!(u.mul(u.inv()).rep(), num(1));
    }
    let any = Modulus::<2>::from_random();
    assert!(any.to_odd().get().is_odd());
    let u = any.random_make();
    assert_eq!(u.mul(u.inv()).rep(), Uint::<2>::one());
}

#[test]
fn prime_field_arithmetic() {
    let p = prime(101);
    let a = p.make(&num(77));
    let b = p.make(&num(45));
    assert_eq!(a.add(b).rep(), num(21));
    assert_eq!(a.sub(b).rep(), num(32));
    assert_eq!(b.sub(a).rep(), num(69));
    assert_eq!(a.neg().rep(), num(24));
    assert_eq!(a.zero().neg().rep(), num(0));
    assert_eq!(a.mul(b).rep(), num(31));
    assert_eq!(b.inv().rep(), num(9));
    assert_eq!(a.div(b).rep(), num(87));
    assert_eq!(a.zero().rep(), num(0));
    assert_eq!(a.char(), num(101));
    assert_eq!(p.make(&num(1000)).rep(), num(91));
    assert_eq!(p.to_odd().get(), num(101));
    assert!(a.equals(&p.make(&num(178))));
    assert!(!a.equals(&b));
    assert!(!a.equals(&prime(103).make(&num(77))));
}

#[test]
fn prime_field_laws_on_random_elements() {
    let p = prime(65537);
    let order = num(65536);
    for _ in 0..50 {
        let a = p.random_make();
        let b = a.random();
        assert_eq!(a.add(b).sub(b), a);
        if b != b.zero() {
            assert_eq!(a.mul(b).div(b), a);
            assert_eq!(b.pow(&order), b.one());
        }
    }
}

#[test]
fn prime_field_of_two_limbs() {
    // 2^89 - 1 is prime
    let p = Uint::<2> { limbs: [u64::MAX, (1 << 25) - 1] };
    let field = PrimeModulus::try_from(Odd::new(p).unwrap()).unwrap();
    let order = Uint::<2> { limbs: [u64::MAX - 1, (1 << 25) - 1] };
    for _ in 0..10 {
        let a = field.random_make();
        let b = field.random_make();
        assert_eq!(a.add(b).sub(b), a);
        if b != b.zero() {
            assert_eq!(a.mul(b).div(b), a);
            assert_eq!(b.pow(&order), b.one());
        }
    }
    let two = field.make(&Uint::from_u64(2));
    assert_eq!(two.pow(&Uint::from_u64(89)).rep(), Uint::<2>::one());
}

#[test]
fn miller_rabin_witnesses() {
    // 2 is a Fermat liar for 341 and is caught by Miller-Rabin
    let m = modulus(341);
    let two = m.make(&num(2)).unwrap();
    assert!(FermatTester::<1>::check(two));
    assert!(!MillerRabinTester::<1>::check(two));
    // every unit is a Fermat liar for the Carmichael number 561
    let m = modulus(561);
    for v in [2u64, 5, 7, 13, 50, 101, 560] {
        let a = m.make(&num(v)).unwrap();
        assert!(FermatTester::<1>::check(a));
    }
    assert!(!MillerRabinTester::<1>::check(m.make(&num(2)).unwrap()));
    assert!(MillerRabinTester::<1>::check(m.make(&num(1)).unwrap()));
    assert!(MillerRabinTester::<1>::check(m.make(&num(560)).unwrap()));
    // 3 is a witness for 7 on both tests
    let a = modulus(7).make(&num(3)).unwrap();
    assert!(FermatTester::<1>::check(a));
    assert!(MillerRabinTester::<1>::check(a));
    // 47 is a strong liar for 65: its square is -1
    let a = modulus(65).make(&num(47)).unwrap();
    assert!(MillerRabinTester::<1>::check(a));
    assert!(!MillerRabinTester::<1>::check(modulus(65).make(&num(2)).unwrap()));
}

#[test]
fn miller_rabin_primes() {
    for p in [2u64, 3, 5, 7, 11, 13, 17, 19, 23, 29, 31, 37, 101, 103, 65537, (1 << 31) - 1] {
        assert!(MillerRabinTester::<1>::is_prime(num(p)), "{}", p);
        assert!(FermatTester::<1>::is_prime(num(p)), "{}", p);
    }
}

#[test]
fn miller_rabin_composites() {
    for n in [0u64, 1, 4, 9, 15, 21, 25, 341, 561, 1105, 1 << 32, 1 << 31] {
        assert!(!MillerRabinTester::<1>::is_prime(num(n)), "{}", n);
    }
    assert!(!FermatTester::<1>::is_prime(num(15)));
    assert!(!FermatTester::<1>::is_prime(num(1)));
    assert!(!FermatTester::<1>::is_prime(num(1 << 32)));
    assert_eq!(MAX_ITERTIME, 128);
}

#[test]
fn prime_modulus_refuses_composites() {
    assert!(PrimeModulus::try_from(Odd::new(num(561)).unwrap()).is_err());
    assert!(PrimeModulus::try_from(Odd::new(num(1)).unwrap()).is_err());
    assert!(PrimeModulus::try_from(Odd::new(num(9)).unwrap()).is_err());
    assert!(PrimeModulus::try_from(Odd::new(num(7)).unwrap()).is_ok());
}

#[test]
fn random_prime_of_128_bits() {
    let p = PrimeModulus::<2>::from_random(128).unwrap();
    let n = p.to_odd().get();
    assert!(n.limbs[1] >> 63 == 1);
    assert!(n.is_odd());
    assert!(MillerRabinTester::<2>::is_prime(n));
}

#[test]
fn random_primes_have_their_length() {
    for bits in [2u32, 3, 8, 16, 31, 64] {
        let p = PrimeModulus::<1>::from_random(bits).unwrap();
        let n = p.to_odd().get().limbs[0];
        assert_eq!(64 - n.leading_zeros(), bits);
        assert!(MillerRabinTester::<1>::is_prime(num(n)));
    }
    let p = PrimeModulus::<2>::from_random(70).unwrap();
    let n = p.to_odd().get();
    assert_eq!(n.limbs[1] >> 5, 1);
}

#[test]
fn random_prime_of_two_bits_is_three() {
    for _ in 0..5 {
        let p = PrimeModulus::<1>::from_random(2).unwrap();
        assert_eq!(p.to_odd().get(), num(3));
    }
    let wide = PrimeModulus::<2>::from_random(2).unwrap();
    assert_eq!(wide.to_odd().get(), Uint::<2>::from_u64(3));
}

#[test]
fn random_primes_have_both_end_bits_set() {
    for bits in [3u32, 5, 12, 40] {
        let n = PrimeModulus::<1>::from_random(bits).unwrap().to_odd().get().limbs[0];
        assert_eq!(n & 1, 1);
        assert_eq!(n >> (bits - 1), 1);
    }
}
