use dense::math::fermat::{is_prime_by, FermatTester, MillerRabinTester, PrimeModulus};
use dense::math::uint::Uint;

fn num(x: u64) -> Uint<1> {
    Uint::from_u64(x)
}

fn nums(xs: &[u64]) -> Vec<Uint<1>> {
    xs.iter().map(|x| num(*x)).collect()
}

fn miller_rabin(n: u64, witnesses: &[u64]) -> bool {
    is_prime_by::<MillerRabinTester<1>, 1>(num(n), &nums(witnesses))
}

fn fermat(n: u64, witnesses: &[u64]) -> bool {
    is_prime_by::<FermatTester<1>, 1>(num(n), &nums(witnesses))
}

#[test]
fn the_witness_two_refutes_the_odd_composites() {
    for n in [9u64, 15, 21, 25, 341, 561, 1105] {
        assert!(!miller_rabin(n, &[2]), "{}", n);
        assert!(!miller_rabin(n, &[1, 2, n - 1]), "{}", n);
    }
}

#[test]
fn no_witness_is_needed_for_small_and_even_numbers() {
    for n in [0u64, 1, 4, 1 << 31, 1 << 32] {
        assert!(!miller_rabin(n, &[]), "{}", n);
        assert!(!miller_rabin(n, &[1]), "{}", n);
        assert!(!fermat(n, &[]), "{}", n);
    }
    assert!(miller_rabin(2, &[]));
    assert!(miller_rabin(2, &[0, 1, 2, 3]));
    assert!(fermat(2, &[]));
}

#[test]
fn primes_are_accepted_on_every_witness() {
    for p in [3u64, 5, 7, 11, 13, 17, 19, 23, 29, 31, 37, 101, 103, 65537, (1 << 31) - 1] {
        let witnesses = [0, 1, 2, 3, 5, 7, p - 1, p, 2 * p, 123_456_789];
        assert!(miller_rabin(p, &witnesses), "{}", p);
        assert!(fermat(p, &witnesses), "{}", p);
    }
}

#[test]
fn liars_speak_for_a_composite() {
    // one and minus one pass every test
    assert!(miller_rabin(9, &[1, 8]));
    assert!(miller_rabin(9, &[]));
    assert!(!miller_rabin(9, &[1, 8, 2]));
    // 2 is a Fermat liar for 341 and no strong liar
    assert!(fermat(341, &[2]));
    assert!(!miller_rabin(341, &[2]));
    assert!(!fermat(341, &[2, 3]));
    // 47 is a strong liar for 65
    assert!(miller_rabin(65, &[47]));
    assert!(!miller_rabin(65, &[47, 2]));
}

#[test]
fn a_carmichael_number_passes_the_test_of_fermat_on_its_units() {
    // 561 = 3 * 11 * 17
    assert!(fermat(561, &[2, 4, 5, 7, 8, 13, 560]));
    assert!(!miller_rabin(561, &[2]));
    // a witness with a factor in common speaks against it
    assert!(!fermat(561, &[3]));
    assert!(!fermat(561, &[2, 5, 11]));
    // a multiple of the number says nothing
    assert!(fermat(561, &[0, 561, 1122]));
}

#[test]
fn a_random_prime_passes_on_given_witnesses() {
    let p = PrimeModulus::<2>::from_random(128).unwrap();
    let n = p.to_odd().get();
    let witnesses: Vec<Uint<2>> =
        [2u64, 3, 5, 7, 11, 13, 17, 19, 23, 29, 31, 37].iter().map(|w| Uint::from_u64(*w)).collect();
    assert!(is_prime_by::<MillerRabinTester<2>, 2>(n, &witnesses));
    assert!(is_prime_by::<FermatTester<2>, 2>(n, &witnesses));
}
