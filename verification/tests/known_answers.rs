use blake2::{Blake2b512, Digest};
use dense::protocol::error::{Error, MPCErrorKind};
use dense::protocol::ot::curve::index_scalar;
use dense::protocol::ot::{co15, np01, Choice};
use k256::elliptic_curve::group::GroupEncoding;
use k256::{ProjectivePoint, Scalar};
use std::io::ErrorKind;

/// The encoding of the generator times `k`.
fn multiple(k: u64) -> Vec<u8> {
    (ProjectivePoint::GENERATOR * Scalar::from(k)).to_bytes().to_vec()
}

fn digest(parts: &[&[u8]]) -> Vec<u8> {
    let mut hasher = Blake2b512::new();
    for part in parts {
        hasher.update(part);
    }
    hasher.finalize().to_vec()
}

fn under(message: &[u8], pad: &[u8]) -> Vec<u8> {
    message.iter().zip(pad).map(|(m, p)| m ^ p).collect()
}

#[test]
fn co15_follows_the_published_formulas() {
    // y = 5, x = 9, choice 1: S = 5 G, T = 25 G, R = 5 G + 9 G
    let sender = co15::Sender::from_secret(index_scalar(5)).unwrap();
    assert_eq!(sender.hello(), &multiple(5)[..]);
    let choice = Choice::<2>::new(1).unwrap();
    let receiver = co15::Receiver::answer(sender.hello(), index_scalar(9), &choice).unwrap();
    assert_eq!(receiver.reply(), &multiple(14)[..]);
    // the keys are y R = 70 G and y R - T = 45 G
    let messages = [[0x11u8; 8], [0x22u8; 8]];
    let ciphers = sender.ciphers(receiver.reply(), &messages).unwrap();
    let s = multiple(5);
    let r = multiple(14);
    let mut expected = under(&messages[0], &digest(&[&multiple(70), &s, &r]));
    expected.extend(under(&messages[1], &digest(&[&multiple(45), &s, &r])));
    assert_eq!(ciphers, expected);
    // the receiver's key is x S = 45 G
    assert_eq!(receiver.decrypt::<8>(&ciphers), Some(messages[1]));
}

#[test]
fn np01_follows_the_published_formulas() {
    // the sender's point is 7 G and its secret 3; the receiver's secret is
    // 11 and its choice 1: it answers 7 G - 11 G
    let sender = np01::Sender::from_parts(vec![multiple(7)], index_scalar(3));
    assert_eq!(sender.masks(), multiple(7));
    assert_eq!(sender.public().unwrap(), multiple(3));
    let choice = Choice::<2>::new(1).unwrap();
    let receiver = np01::Receiver::answer(&sender.masks(), index_scalar(11), &choice).unwrap();
    let answer = (ProjectivePoint::GENERATOR * -Scalar::from(4u64)).to_bytes().to_vec();
    assert_eq!(receiver.reply(), &answer[..]);
    // the secrets are the first coordinates of 3 (-4 G) and 3 (11 G)
    let messages = [[0x33u8; 16], [0x44u8; 16]];
    let ciphers = sender.ciphers(receiver.reply(), &messages).unwrap();
    let zero = 0u64.to_le_bytes();
    let one = 1u64.to_le_bytes();
    let mut expected = under(&messages[0], &digest(&[&multiple(12)[1..], &zero]));
    expected.extend(under(&messages[1], &digest(&[&multiple(33)[1..], &one])));
    assert_eq!(ciphers, expected);
    assert_eq!(receiver.decrypt::<16>(&multiple(3), &ciphers), Some(messages[1]));
    // for the choice 0 the receiver answers its public key
    let first = Choice::<2>::new(0).unwrap();
    let plain = np01::Receiver::answer(&sender.masks(), index_scalar(11), &first).unwrap();
    assert_eq!(plain.reply(), &multiple(11)[..]);
}

#[test]
fn io_errors_keep_their_kind() {
    let error = Error::from(std::io::Error::from(ErrorKind::ConnectionRefused));
    assert_eq!(error, Error::IOError(ErrorKind::ConnectionRefused));
    let error = Error::from(std::io::Error::new(ErrorKind::UnexpectedEof, "closed"));
    assert_eq!(error, Error::IOError(ErrorKind::UnexpectedEof));
    assert_ne!(error, Error::MPCError(MPCErrorKind::InsufficientShares));
    assert_eq!(Error::from_kind(ErrorKind::TimedOut), Error::IOError(ErrorKind::TimedOut));
    assert_ne!(
        Error::MPCError(MPCErrorKind::InvalidParameters),
        Error::MPCError(MPCErrorKind::InsufficientShares)
    );
}
