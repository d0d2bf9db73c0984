use dense::math::fermat::PrimeModulus;
use dense::math::galois::binaryfield::BinaryField;
use dense::math::uint::{Odd, Uint};
use dense::protocol::error::{Error, MPCErrorKind};
use dense::protocol::shamir::functionality::Server;
use dense::protocol::shamir::SSServer;

type GF16 = BinaryField<4, 1>;

/// A random element other than `secret`.
fn noise(secret: GF16) -> GF16 {
    loop {
        let drawn = GF16::random_new();
        if drawn != secret {
            return drawn;
        }
    }
}

#[test]
fn functionality_test_correctness() {
    let server = Server::<3, 5>;
    let secret = GF16::random_new();
    let mut shares: [Option<GF16>; 5] = server
        .split(secret)
        .unwrap()
        .into_iter()
        .map(|s| Some(s))
        .collect::<Vec<_>>()
        .try_into()
        .unwrap();
    shares[0] = None;
    shares[1].replace(noise(secret));
    assert_eq!(secret, server.recover(&shares).unwrap());
    shares[2].replace(noise(secret));
    assert_eq!(
        Error::MPCError(MPCErrorKind::InsufficientShares),
        server.recover(&shares).unwrap_err()
    );
}

fn gf16(x: u64) -> GF16 {
    GF16::new(Uint::from_u64(x)).unwrap()
}

const INSUFFICIENT: Error = Error::MPCError(MPCErrorKind::InsufficientShares);

#[test]
fn split_hands_out_the_secret() {
    let server = Server::<3, 5>;
    let shares = server.split(gf16(9)).unwrap();
    assert_eq!(shares, [gf16(9); 5]);
    let all = shares.map(Some);
    assert_eq!(server.recover(&all), Ok(gf16(9)));
    assert_eq!(SSServer::<3, 5, GF16>::prepare(&server), Ok(()));
}

#[test]
fn recover_counts_the_shares_in_the_lead() {
    let server = Server::<3, 5>;
    let s = Some(gf16(7));
    let a = Some(gf16(1));
    let b = Some(gf16(2));
    let c = Some(gf16(3));
    // three shares of five are the secret, wherever they stand
    assert_eq!(server.recover(&[None, a, s, s, s]), Ok(gf16(7)));
    assert_eq!(server.recover(&[s, s, s, None, a]), Ok(gf16(7)));
    assert_eq!(server.recover(&[s, s, s, None, None]), Ok(gf16(7)));
    assert_eq!(server.recover(&[s, s, s, a, b]), Ok(gf16(7)));
    assert_eq!(server.recover(&[a, s, b, s, s]), Ok(gf16(7)));
    assert_eq!(server.recover(&[s, a, s, b, s]), Ok(gf16(7)));
    assert_eq!(server.recover(&[s, s, s, s, a]), Ok(gf16(7)));
    assert_eq!(server.recover(&[a, s, s, s, s]), Ok(gf16(7)));
    let one = Some(gf16(1));
    let zero = Some(gf16(0));
    assert_eq!(server.recover(&[one, one, one, zero, None]), Ok(gf16(1)));
    // two equal shares and three distinct noise shares
    assert_eq!(server.recover(&[s, s, a, b, c]), Err(INSUFFICIENT));
    assert_eq!(server.recover(&[a, b, c, s, s]), Err(INSUFFICIENT));
    assert_eq!(server.recover(&[None, a, b, s, s]), Err(INSUFFICIENT));
    assert_eq!(server.recover(&[s, None, None, s, None]), Err(INSUFFICIENT));
    // missing shares are no secret
    assert_eq!(server.recover(&[None::<GF16>, None, None, None, None]), Err(INSUFFICIENT));
    assert_eq!(server.recover(&[None, None, None, s, s]), Err(INSUFFICIENT));
    assert_eq!(Server::<0, 2>.recover(&[None::<GF16>, None]), Err(INSUFFICIENT));
    assert_eq!(Server::<1, 1>.recover(&[s]), Ok(gf16(7)));
    assert_eq!(Server::<2, 1>.recover(&[s]), Err(INSUFFICIENT));
}

#[test]
fn recover_does_not_go_by_the_order() {
    let server = Server::<3, 5>;
    let s = Some(gf16(7));
    let r = Some(gf16(9));
    let base = [s, s, s, None, r];
    // every order of two noise shares among three secrets
    for i in 0..5 {
        for j in 0..5 {
            if i != j {
                let mut shares = [s; 5];
                shares[i] = None;
                shares[j] = r;
                assert_eq!(server.recover(&shares), server.recover(&base));
                assert_eq!(server.recover(&shares), Ok(gf16(7)));
                shares[(0..5).find(|k| *k != i && *k != j).unwrap()] = Some(gf16(1));
                assert_eq!(server.recover(&shares), Err(INSUFFICIENT));
            }
        }
    }
}

#[test]
fn recover_over_a_prime_field() {
    let p = PrimeModulus::<1>::try_from(Odd::new(Uint::from_u64(101)).unwrap()).unwrap();
    let server = Server::<2, 3>;
    let secret = p.make(&Uint::from_u64(42));
    let noise = p.make(&Uint::from_u64(43));
    let shares = server.split(secret).unwrap();
    assert_eq!(server.recover(&[Some(shares[0]), Some(shares[1]), None]), Ok(secret));
    assert_eq!(server.recover(&[Some(shares[0]), Some(shares[1]), Some(shares[2])]), Ok(secret));
    assert_eq!(server.recover(&[Some(noise), Some(shares[1]), Some(shares[2])]), Ok(secret));
    assert_eq!(server.recover(&[Some(noise), None, Some(shares[2])]), Err(INSUFFICIENT));
    assert_eq!(server.recover(&[Some(noise), Some(noise), Some(shares[2])]), Ok(noise));
}
