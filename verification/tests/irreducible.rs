use dense::math::galois::binaryfield::{divrem, BinaryField};
use dense::math::galois::irreducible::irreducible_low_terms;
use dense::math::uint::Uint;

/// The greatest common divisor of two polynomials over GF(2).
fn gcd<const LIMBS: usize>(a: Uint<LIMBS>, b: Uint<LIMBS>) -> Uint<LIMBS> {
    let (mut r, mut s) = (a, b);
    while !s.is_zero() {
        let (_, rest) = divrem(r, s);
        r = s;
        s = rest;
    }
    r
}

/// The test of Rabin: a polynomial `p` of degree `n` over GF(2) is
/// irreducible exactly when `x^(2^n)` is `x` modulo `p` and, for every
/// prime `q` that divides `n`, `x^(2^(n / q)) - x` has no divisor in common
/// with `p`.
fn rabin<const EXP: u32, const LIMBS: usize>() {
    let low = irreducible_low_terms(EXP).unwrap();
    let mut p = Uint::<LIMBS>::from_u64(low);
    p.limbs[(EXP / 64) as usize] |= 1 << (EXP % 64);
    let x = BinaryField::<EXP, LIMBS>::new(Uint::from_u64(2)).unwrap();
    let power = |k: u32| {
        let mut y = x;
        for _ in 0..k {
            y = y.mul(y);
        }
        y
    };
    assert_eq!(power(EXP), x, "degree {}", EXP);
    for q in 2..=EXP {
        let prime = (2..q).all(|d| q % d != 0);
        if prime && EXP % q == 0 {
            let difference = power(EXP / q).sub(x).rep();
            assert_eq!(gcd(p, difference), Uint::from_u64(1), "degree {} at {}", EXP, q);
        }
    }
}

#[test]
fn table_entries_are_irreducible() {
    rabin::<2, 1>();
    rabin::<3, 1>();
    rabin::<4, 1>();
    rabin::<5, 1>();
    rabin::<6, 1>();
    rabin::<7, 1>();
    rabin::<8, 1>();
    rabin::<9, 1>();
    rabin::<10, 1>();
    rabin::<11, 1>();
    rabin::<12, 1>();
    rabin::<13, 1>();
    rabin::<14, 1>();
    rabin::<15, 1>();
    rabin::<16, 1>();
    rabin::<32, 1>();
    rabin::<64, 2>();
    rabin::<128, 3>();
}

#[test]
fn reducible_polynomials_fail_the_same_test() {
    // x^4 + x^2 + 1 is the square of x^2 + x + 1
    let p = Uint::<1>::from_u64(0b10101);
    let factor = Uint::<1>::from_u64(0b111);
    assert_eq!(gcd(p, factor), factor);
    let (quotient, rest) = divrem(p, factor);
    assert_eq!(quotient, factor);
    assert!(rest.is_zero());
    // x^8 + x^4 + x^3 + x + 1 has no divisor in common with x^2 + x + 1
    assert_eq!(gcd(Uint::<1>::from_u64(0x11b), factor), Uint::from_u64(1));
}
