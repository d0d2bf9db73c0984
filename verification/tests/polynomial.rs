use dense::math::fermat::PrimeModulus;
use dense::math::galois::binaryfield::BinaryField;
use dense::math::galois::primefield::PrimeField;
use dense::math::galois::FiniteField;
use dense::math::uint::{Odd, Uint};
use dense::protocol::error::{Error, MPCErrorKind};
use dense::protocol::shamir::polynomial::Server;
use dense::protocol::shamir::SSServer;

const INSUFFICIENT: Error = Error::MPCError(MPCErrorKind::InsufficientShares);
const INVALID: Error = Error::MPCError(MPCErrorKind::InvalidParameters);

fn prime_field(p: u64) -> PrimeModulus<1> {
    PrimeModulus::try_from(Odd::new(Uint::from_u64(p)).unwrap()).unwrap()
}

/// Splits `secret` into five shares and recovers it from every choice of
/// shares: from three or more it comes back, from fewer it does not.
fn three_of_five<F: FiniteField + PartialEq + std::fmt::Debug>(secret: F) {
    let server = Server::<3, 5>;
    let shares = server.split(secret).unwrap();
    for subset in 0u32..32 {
        let mut present = [None; 5];
        for i in 0..5 {
            if subset >> i & 1 == 1 {
                present[i] = Some(shares[i]);
            }
        }
        if subset.count_ones() >= 3 {
            assert_eq!(server.recover(&present), Ok(secret), "{:05b}", subset);
        } else {
            assert_eq!(server.recover(&present), Err(INSUFFICIENT), "{:05b}", subset);
        }
    }
}

#[test]
fn three_of_five_over_binary_fields() {
    for x in 0..16 {
        three_of_five(BinaryField::<4, 1>::new(Uint::from_u64(x)).unwrap());
    }
    for _ in 0..10 {
        three_of_five(BinaryField::<8, 1>::random_new());
        three_of_five(BinaryField::<128, 2>::random_new());
    }
}

#[test]
fn three_of_five_over_prime_fields() {
    for p in [7u64, 101, 65537] {
        let field = prime_field(p);
        three_of_five(field.make(&Uint::from_u64(0)));
        three_of_five(field.make(&Uint::from_u64(p - 1)));
        for _ in 0..10 {
            three_of_five(field.random_make());
        }
    }
}

#[test]
fn recover_reads_the_constant_term() {
    // 42 + 3 x + 5 x^2 modulo 101 at 1, 2, 3, 4, 5
    let field = prime_field(101);
    let at = |v: u64| Some(field.make(&Uint::from_u64(v)));
    let secret: PrimeField<1> = field.make(&Uint::from_u64(42));
    let server = Server::<3, 5>;
    assert_eq!(server.recover(&[at(50), at(68), at(96), at(33), at(81)]), Ok(secret));
    assert_eq!(server.recover(&[at(50), None, at(96), None, at(81)]), Ok(secret));
    assert_eq!(server.recover(&[None, None, at(96), at(33), at(81)]), Ok(secret));
    assert_eq!(server.recover(&[None, at(68), None, at(33), at(81)]), Ok(secret));
    // the first three shares that are present decide
    assert_eq!(server.recover(&[at(50), at(68), at(96), at(0), at(0)]), Ok(secret));
    assert_eq!(server.recover(&[at(50), at(68), None, at(33), at(0)]), Ok(secret));
    // 7 + x modulo 101 with two shares needed
    let line = Server::<2, 3>;
    assert_eq!(line.recover(&[at(8), None, at(10)]), Ok(field.make(&Uint::from_u64(7))));
    assert_eq!(line.recover(&[None, at(9), at(10)]), Ok(field.make(&Uint::from_u64(7))));
    assert_eq!(line.recover(&[None, at(9), None]), Err(INSUFFICIENT));
    // x^2 + x + 1 over the field of four elements is 1, 1 at x and x + 1
    let bit = |v: u64| Some(BinaryField::<2, 1>::new(Uint::from_u64(v)).unwrap());
    let cube = Server::<3, 3>;
    assert_eq!(cube.recover(&[bit(1), bit(0), bit(0)]), Ok(bit(1).unwrap()));
    assert_eq!(cube.recover(&[bit(2), bit(3), bit(1)]), Ok(bit(0).unwrap()));
}

#[test]
fn one_share_suffices_for_a_threshold_of_one() {
    let secret = BinaryField::<8, 1>::new(Uint::from_u64(0x57)).unwrap();
    let server = Server::<1, 4>;
    let shares = server.split(secret).unwrap();
    assert_eq!(shares, [secret; 4]);
    assert_eq!(server.recover(&[None, None, Some(secret), None]), Ok(secret));
    assert_eq!(server.recover(&[None::<BinaryField<8, 1>>, None, None, None]), Err(INSUFFICIENT));
}

#[test]
fn shares_of_one_secret_differ_from_run_to_run() {
    let secret = BinaryField::<128, 2>::random_new();
    let server = Server::<3, 5>;
    assert_ne!(server.split(secret).unwrap(), server.split(secret).unwrap());
}

#[test]
fn parameters_that_do_not_go_together() {
    let secret = BinaryField::<2, 1>::new(Uint::from_u64(3)).unwrap();
    // the field of four elements has three elements other than zero
    assert!(Server::<2, 3>.split(secret).is_ok());
    assert_eq!(Server::<2, 4>.split(secret), Err(INVALID));
    assert_eq!(Server::<0, 3>.split(secret), Err(INVALID));
    assert_eq!(Server::<4, 3>.split(secret), Err(INVALID));
    assert_eq!(Server::<0, 3>.recover(&[Some(secret), None, None]), Err(INVALID));
    assert_eq!(Server::<4, 3>.recover(&[Some(secret), Some(secret), Some(secret)]), Err(INVALID));
    assert_eq!(
        Server::<2, 4>.recover(&[None, None, Some(secret), Some(secret)]),
        Err(INVALID)
    );
    let small = prime_field(3).make(&Uint::from_u64(2));
    assert!(Server::<2, 2>.split(small).is_ok());
    assert_eq!(Server::<2, 3>.split(small), Err(INVALID));
}
