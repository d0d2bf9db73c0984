use dense::math::abel::{AbelianMonoid, Inv};
use dense::math::fermat::PrimeModulus;
use dense::math::galois::binaryfield::BinaryField;
use dense::math::galois::FiniteField;
use dense::math::uint::{Odd, Uint};

type GF256 = BinaryField<8, 1>;

fn gf256(x: u64) -> GF256 {
    GF256::new(Uint::from_u64(x)).unwrap()
}

#[test]
fn operators_on_a_binary_field() {
    let a = gf256(0x57);
    let b = gf256(0x83);
    assert_eq!(a + b, gf256(0xd4));
    assert_eq!(a - b, gf256(0xd4));
    assert_eq!(a * b, gf256(0xc1));
    assert_eq!(-a, a);
    assert_eq!(a / b, a * b.inv());
    assert_eq!(a * b / b, a);
    assert_eq!(a + a, a.zero());
    assert_eq!((a + b) * gf256(3), a * gf256(3) + b * gf256(3));
}

#[test]
fn operators_on_a_prime_field() {
    let p = PrimeModulus::<1>::try_from(Odd::new(Uint::from_u64(101)).unwrap()).unwrap();
    let a = p.make(&Uint::from_u64(77));
    let b = p.make(&Uint::from_u64(45));
    assert_eq!((a + b).rep(), Uint::from_u64(21));
    assert_eq!((a - b).rep(), Uint::from_u64(32));
    assert_eq!((b - a).rep(), Uint::from_u64(69));
    assert_eq!((a * b).rep(), Uint::from_u64(31));
    assert_eq!((a / b).rep(), Uint::from_u64(87));
    assert_eq!((-a).rep(), Uint::from_u64(24));
    assert_eq!(a * b / b, a);
    assert_eq!(a + b - b, a);
    assert_eq!(a + (-a), a.zero());
    assert_eq!(b * b.inv(), b.one());
}

#[test]
fn generic_arithmetic_of_a_field() {
    fn check<F: FiniteField + PartialEq + std::fmt::Debug>(a: F, b: F, size: u64) {
        let zero = a.zero();
        let one = a.one();
        assert_eq!(a.plus(&b).minus(&b), a);
        assert_eq!(a.plus(&zero), a);
        assert_eq!(a.times(&one), a);
        assert_eq!(a.times(&zero), zero);
        assert_eq!(zero.reciprocal(), None);
        if b != zero {
            assert_eq!(b.times(&b.reciprocal().unwrap()), one);
        }
        assert_eq!(a.element(0), Some(zero));
        assert_eq!(a.element(1), Some(one));
        assert!(a.element(size - 1).is_some());
        assert_eq!(a.element(size), None);
        assert_eq!(a.element(u64::MAX), None);
        assert_ne!(a.element(2), a.element(3));
    }
    check(gf256(0x57), gf256(0x83), 256);
    check(gf256(0x57), gf256(0), 256);
    let p = PrimeModulus::<1>::try_from(Odd::new(Uint::from_u64(101)).unwrap()).unwrap();
    check(p.make(&Uint::from_u64(77)), p.make(&Uint::from_u64(45)), 101);
    let wide = PrimeModulus::<2>::try_from(Odd::new(Uint::from_u64(65537)).unwrap()).unwrap();
    check(wide.make(&Uint::from_u64(7)), wide.make(&Uint::from_u64(0)), 65537);
    assert_eq!(gf256(5).element(200).unwrap().rep(), Uint::from_u64(200));
    assert_eq!(p.make(&Uint::from_u64(5)).element(100).unwrap().rep(), Uint::from_u64(100));
    assert_eq!(BinaryField::<64, 1>::random_new().element(u64::MAX).unwrap().rep().limbs, [u64::MAX]);
}

#[test]
fn checked_inverse_of_a_residue() {
    let m = dense::math::abel::Modulus::<1>::from(Odd::new(Uint::from_u64(15)).unwrap());
    let seven = m.make(&Uint::from_u64(7)).unwrap();
    assert_eq!(seven.checked_inv().unwrap().rep(), Uint::from_u64(13));
    let three = seven.add(seven).add(seven).add(seven.add(seven).add(seven).neg().add(seven.one().add(seven.one()).add(seven.one())));
    assert_eq!(three.rep(), Uint::from_u64(3));
    assert_eq!(three.checked_inv(), None);
    assert_eq!(three.reciprocal(), None);
    assert_eq!(seven.reciprocal().unwrap().rep(), Uint::from_u64(13));
}
