use dense::math::abel::{AbelianMonoid, Inv};
use dense::math::galois::binaryfield::{divrem, BinaryField};
use dense::math::galois::irreducible::irreducible_low_terms;
use dense::math::galois::FiniteField;
use dense::math::uint::Uint;

type GF16 = BinaryField<4, 1>;
type GF256 = BinaryField<8, 1>;

fn gf256(x: u64) -> GF256 {
    GF256::new(Uint::from_u64(x)).unwrap()
}

fn element<const EXP: u32, const LIMBS: usize>(x: u64) -> BinaryField<EXP, LIMBS> {
    BinaryField::<EXP, LIMBS>::new(Uint::from_u64(x)).unwrap()
}

/// Checks that every element of the field but zero has an inverse, which
/// holds exactly when the field's polynomial is irreducible, and that its
/// power by the order of the group of units is one.
fn every_inverse<const EXP: u32>() {
    let one = element::<EXP, 1>(1);
    let order = Uint::<1>::from_u64((1u64 << EXP) - 1);
    for x in 1..(1u64 << EXP) {
        let a = element::<EXP, 1>(x);
        let i = a.inv();
        assert_eq!(a.mul(i), one);
        assert_eq!(i.mul(a), one);
        assert_eq!(a.pow(&order), one);
    }
}

#[test]
fn aes_field_known_products() {
    assert_eq!(gf256(0x57).mul(gf256(0x83)), gf256(0xc1));
    assert_eq!(gf256(0x57).mul(gf256(0x13)), gf256(0xfe));
    assert_eq!(gf256(0x03).mul(gf256(0xf6)), gf256(0x01));
    assert_eq!(gf256(0x03).mul(gf256(0xff)), gf256(0x1a));
    assert_eq!(gf256(0x80).mul(gf256(0x02)), gf256(0x1b));
    assert_eq!(gf256(0).mul(gf256(0x57)), gf256(0));
}

#[test]
fn aes_field_known_inverses() {
    assert_eq!(gf256(0x03).inv(), gf256(0xf6));
    assert_eq!(gf256(0x53).inv(), gf256(0xca));
    assert_eq!(gf256(0x01).inv(), gf256(0x01));
    assert_eq!(gf256(0x02).inv(), gf256(0x8d));
    assert_eq!(gf256(0xff).inv(), gf256(0x1c));
}

#[test]
fn aes_field_every_inverse() {
    every_inverse::<8>();
}

#[test]
fn small_fields_every_inverse() {
    every_inverse::<2>();
    every_inverse::<3>();
    every_inverse::<4>();
    every_inverse::<5>();
    every_inverse::<6>();
    every_inverse::<7>();
    every_inverse::<9>();
    every_inverse::<10>();
}

#[test]
fn larger_fields_sampled_inverses() {
    fn sample<const EXP: u32>() {
        let one = element::<EXP, 1>(1);
        for x in 1..200u64 {
            let a = element::<EXP, 1>(x * 7 % (1 << EXP.min(20)) + 1);
            assert_eq!(a.mul(a.inv()), one);
        }
        for _ in 0..50 {
            let a = BinaryField::<EXP, 1>::random_new();
            if a != a.zero() {
                assert_eq!(a.mul(a.inv()), one);
            }
        }
    }
    sample::<11>();
    sample::<12>();
    sample::<13>();
    sample::<14>();
    sample::<15>();
    sample::<16>();
    sample::<32>();
    sample::<64>();
}

#[test]
fn field_of_two_limbs() {
    type F = BinaryField<128, 2>;
    let one = F::new(Uint::from_u64(1)).unwrap();
    for _ in 0..20 {
        let a = F::random_new();
        let b = F::random_new();
        if b != b.zero() {
            assert_eq!(a.mul(b).mul(b.inv()), a);
            assert_eq!(a.mul(b).div(b), a);
            assert_eq!(b.mul(b.inv()), one);
        }
        assert_eq!(a.add(a), a.zero());
    }
    // the power by the number of elements other than zero is one
    let order = Uint { limbs: [u64::MAX, u64::MAX] };
    for _ in 0..5 {
        let a = F::random_new();
        if a != a.zero() {
            assert_eq!(a.pow(&order), one);
            assert_eq!(a.pow(&Uint { limbs: [0, 1] }), a.pow(&Uint::from_u64(1 << 32)).pow(&Uint::from_u64(1 << 32)));
        }
    }
    // x^127 times x is x^128, which is x^7 + x^2 + x + 1
    let high = F::new(Uint { limbs: [0, 1 << 63] }).unwrap();
    let x = F::new(Uint::from_u64(2)).unwrap();
    assert_eq!(high.mul(x).rep(), Uint { limbs: [0x87, 0] });
    // an element of a narrower field does not fit a wider integer's top
    assert!(BinaryField::<64, 2>::new(Uint { limbs: [0, 1] }).is_none());
}

#[test]
fn field_as_wide_as_its_integer() {
    type F = BinaryField<64, 1>;
    let high = F::new(Uint::from_u64(1 << 63)).unwrap();
    let x = F::new(Uint::from_u64(2)).unwrap();
    assert_eq!(high.mul(x).rep(), Uint::from_u64(0x1b));
    assert_eq!(x.mul(x.inv()).rep(), Uint::from_u64(1));
    assert_eq!(high.mul(high.inv()).rep(), Uint::from_u64(1));
    assert_eq!(x.pow(&Uint::from_u64(64)).rep(), Uint::from_u64(0x1b));
    assert_eq!(x.pow(&Uint::from_u64(u64::MAX)).rep(), Uint::from_u64(1));
    assert_eq!(high.pow(&Uint::from_u64(u64::MAX)).rep(), Uint::from_u64(1));
}

#[test]
fn field_of_sixteen_elements() {
    let x = element::<4, 1>(2);
    // the powers of x run through all elements but zero
    let expected = [1u64, 2, 4, 8, 3, 6, 12, 11, 5, 10, 7, 14, 15, 13, 9, 1];
    for (e, want) in expected.iter().enumerate() {
        assert_eq!(x.pow(&Uint::from_u64(e as u64)), element::<4, 1>(*want));
    }
    let a: GF16 = element::<4, 1>(9);
    assert_eq!(a.inv(), element::<4, 1>(2));
    assert_eq!(a.div(element::<4, 1>(2)), element::<4, 1>(13));
}

#[test]
fn divrem_known_values() {
    let (q, r) = divrem(Uint::<1>::from_u64(0x11b), Uint::<1>::from_u64(0x03));
    assert_eq!(q, Uint::<1>::from_u64(0xf6));
    assert_eq!(r, Uint::<1>::from_u64(0x01));
    let (q, r) = divrem(Uint::<1>::from_u64(0x5), Uint::<1>::from_u64(0x1b));
    assert_eq!(q, Uint::<1>::from_u64(0));
    assert_eq!(r, Uint::<1>::from_u64(5));
    let (q, r) = divrem(Uint::<1>::from_u64(0), Uint::<1>::from_u64(7));
    assert_eq!(q, Uint::<1>::from_u64(0));
    assert_eq!(r, Uint::<1>::from_u64(0));
    // (x^3 + x + 1)(x^2 + 1) + x = x^5 + x^2 + 1
    let (q, r) = divrem(Uint::<2>::from_u64(0b100101), Uint::<2>::from_u64(0b1011));
    assert_eq!(q, Uint::<2>::from_u64(0b101));
    assert_eq!(r, Uint::<2>::from_u64(0b10));
}

#[test]
fn pow_is_repeated_multiplication() {
    let a = gf256(0x57);
    let mut acc = a.one();
    for e in 0..40u64 {
        assert_eq!(a.pow(&Uint::from_u64(e)), acc);
        acc = acc.mul(a);
    }
    assert_eq!(gf256(0).pow(&Uint::from_u64(0)), gf256(1));
    assert_eq!(gf256(0).pow(&Uint::from_u64(5)), gf256(0));
}

#[test]
fn zero_one_and_characteristic() {
    let a = gf256(0x57);
    assert_eq!(a.zero().rep(), Uint::from_u64(0));
    assert_eq!(a.one().rep(), Uint::from_u64(1));
    assert_eq!(a.char(), Uint::from_u64(2));
    assert_eq!(a.add(a), a.zero());
    assert_eq!(a.add(gf256(0x83)), gf256(0xd4));
    assert_eq!(a.sub(gf256(0x83)), gf256(0xd4));
    assert_eq!(a.add(gf256(0x83)).sub(gf256(0x83)), a);
    assert_eq!(a.neg(), a);
    assert!(a.equals(&gf256(0x57)));
    assert!(!a.equals(&gf256(0x56)));
    assert!(GF256::new(Uint::from_u64(256)).is_none());
    assert!(GF256::new(Uint::from_u64(255)).is_some());
}

#[test]
fn random_elements_are_reduced() {
    for _ in 0..100 {
        let a = GF16::random_new();
        assert!(a.rep().limbs[0] < 16);
        let b = a.random();
        assert!(b.rep().limbs[0] < 16);
    }
}

#[test]
fn table_of_polynomials() {
    assert_eq!(irreducible_low_terms(8), Some(0x1b));
    assert_eq!(irreducible_low_terms(4), Some(0x3));
    assert_eq!(irreducible_low_terms(128), Some(0x87));
    assert_eq!(irreducible_low_terms(1), None);
    assert_eq!(irreducible_low_terms(17), None);
}
