//! The group of the oblivious transfers: the curve secp256k1, with points
//! in their compressed SEC1 encoding of 33 bytes and scalars as 32 bytes,
//! most significant byte first; and the hash Blake2b-512.
//!
//! The arithmetic is done by `k256` and the hashing by `blake2`. What they
//! return is named here, as a function of the bytes that go in.

use blake2::Digest;
use k256::elliptic_curve::group::GroupEncoding;
use k256::elliptic_curve::ops::{LinearCombination, MulByGenerator};
use k256::elliptic_curve::{Field, Group, PrimeField};
use k256::{NonZeroScalar, ProjectivePoint, PublicKey, Scalar};
use vstd::arithmetic::power2::pow2;
use vstd::prelude::*;

verus! {

/// The length of an encoded point.
pub const POINT_LEN: usize = 33;

/// The length of an encoded scalar.
pub const SCALAR_LEN: usize = 32;

/// The length of a digest.
pub const DIGEST_LEN: usize = 64;

/// The generator multiplied by a scalar, or `None` where the bytes are no
/// scalar.
pub uninterp spec fn secp256k1_base_mul(scalar: Seq<u8>) -> Option<Seq<u8>>;

/// A point multiplied by a scalar, or `None` where the bytes are no point
/// or no scalar.
pub uninterp spec fn secp256k1_mul(point: Seq<u8>, scalar: Seq<u8>) -> Option<Seq<u8>>;

/// The point `a * p + b * q`, or `None` where the bytes are no points or
/// no scalars.
pub uninterp spec fn secp256k1_lincomb(p: Seq<u8>, a: Seq<u8>, q: Seq<u8>, b: Seq<u8>) -> Option<
    Seq<u8>,
>;

/// The compressed encoding of the point that the bytes stand for, or `None`
/// where they stand for none. Bytes of more than one form can stand for
/// one point; its compressed encoding is one.
pub uninterp spec fn secp256k1_point(point: Seq<u8>) -> Option<Seq<u8>>;

/// The order of the group: the number of its points.
pub open spec fn group_order() -> nat {
    (pow2(256) - pow2(128) - 0x4551_2319_50b7_5fc4_402d_a173_2fc9_bebf) as nat
}

/// The number `v` in `len` bytes, most significant first.
pub open spec fn big_endian(v: nat, len: nat) -> Seq<u8> {
    Seq::new(len, |k: int| ((v / pow2((8 * (len - 1 - k)) as nat)) % 256) as u8)
}

/// The scalar `-i`: zero for zero, else the order of the group less `i`.
pub open spec fn secp256k1_negated(i: u64) -> Seq<u8> {
    big_endian(
        if i == 0 {
            0
        } else {
            (group_order() - i) as nat
        },
        SCALAR_LEN as nat,
    )
}

/// The point `a - b`, or `None` where the bytes are no public keys or the
/// difference is the point at infinity.
pub uninterp spec fn secp256k1_difference(a: Seq<u8>, b: Seq<u8>) -> Option<Seq<u8>>;

/// The public key of a secret scalar, or `None` where the bytes are no
/// scalar other than zero.
pub uninterp spec fn secp256k1_public_key(secret: Seq<u8>) -> Option<Seq<u8>>;

/// The Diffie-Hellman secret of a secret scalar and a public key: the
/// first coordinate of their product; or `None` where the bytes are no
/// scalar other than zero or no public key.
pub uninterp spec fn secp256k1_shared_secret(secret: Seq<u8>, public: Seq<u8>) -> Option<Seq<u8>>;

/// The Blake2b-512 digest of `data`.
pub uninterp spec fn blake2b512_digest(data: Seq<u8>) -> Seq<u8>;

/// Whether `r` holds the bytes of `named`, in a point's length.
pub open spec fn is_point(r: Option<Vec<u8>>, named: Option<Seq<u8>>) -> bool {
    match r {
        Some(v) => named == Some(v@) && v@.len() == POINT_LEN,
        None => named.is_none(),
    }
}

/// `k256::ProjectivePoint::mul_by_generator`, on a decoded scalar and with
/// the result encoded.
#[verifier::external_body]
pub(crate) fn base_mul(scalar: &[u8]) -> (r: Option<Vec<u8>>)
    ensures
        is_point(r, secp256k1_base_mul(scalar@)),
{
    let k = Scalar::from_repr(<[u8; 32]>::try_from(scalar).ok()?.into()).into_option()?;
    Some(ProjectivePoint::mul_by_generator(&k).to_bytes().to_vec())
}

/// The product of a `k256::ProjectivePoint` and a `k256::Scalar`, on
/// decoded arguments and with the result encoded.
#[verifier::external_body]
pub(crate) fn point_mul(point: &[u8], scalar: &[u8]) -> (r: Option<Vec<u8>>)
    ensures
        is_point(r, secp256k1_mul(point@, scalar@)),
{
    let p = ProjectivePoint::from_bytes(&<[u8; 33]>::try_from(point).ok()?.into()).into_option()?;
    let k = Scalar::from_repr(<[u8; 32]>::try_from(scalar).ok()?.into()).into_option()?;
    Some((p * k).to_bytes().to_vec())
}

/// `k256::ProjectivePoint::from_bytes` and then `to_bytes`: the bytes
/// decoded as a point, and the point encoded.
#[verifier::external_body]
pub(crate) fn point_encoding(point: &[u8]) -> (r: Option<Vec<u8>>)
    ensures
        is_point(r, secp256k1_point(point@)),
{
    let p = ProjectivePoint::from_bytes(&<[u8; 33]>::try_from(point).ok()?.into()).into_option()?;
    Some(p.to_bytes().to_vec())
}

/// `k256::ProjectivePoint::lincomb`, on decoded arguments and with the
/// result encoded.
#[verifier::external_body]
pub(crate) fn lincomb(p: &[u8], a: &[u8], q: &[u8], b: &[u8]) -> (r: Option<Vec<u8>>)
    ensures
        is_point(r, secp256k1_lincomb(p@, a@, q@, b@)),
{
    let p = ProjectivePoint::from_bytes(&<[u8; 33]>::try_from(p).ok()?.into()).into_option()?;
    let a = Scalar::from_repr(<[u8; 32]>::try_from(a).ok()?.into()).into_option()?;
    let q = ProjectivePoint::from_bytes(&<[u8; 33]>::try_from(q).ok()?.into()).into_option()?;
    let b = Scalar::from_repr(<[u8; 32]>::try_from(b).ok()?.into()).into_option()?;
    Some(ProjectivePoint::lincomb(&p, &a, &q, &b).to_bytes().to_vec())
}

/// `k256::Scalar::negate` of the scalar `i`, encoded: the negative modulo
/// the order of the group, which is the order less `i`, and zero for zero.
#[verifier::external_body]
pub(crate) fn negated_scalar(i: u64) -> (r: Vec<u8>)
    ensures
        r@ == secp256k1_negated(i),
        r@.len() == SCALAR_LEN,
{
    Scalar::from(i).negate().to_bytes().to_vec()
}

/// `k256::Scalar::random` on the operating system's generator, encoded:
/// 32 bytes, whichever scalar is drawn. What is drawn is a scalar, so its
/// bytes decode as one and the generator can be multiplied by it.
#[verifier::external_body]
pub(crate) fn random_scalar() -> (r: Vec<u8>)
    ensures
        r@.len() == SCALAR_LEN,
        secp256k1_base_mul(r@).is_some(),
{
    Scalar::random(&mut k256::elliptic_curve::rand_core::OsRng).to_bytes().to_vec()
}

/// The difference of two `k256::PublicKey`s as projective points, made a
/// public key again and encoded.
#[verifier::external_body]
pub(crate) fn point_difference(a: &[u8], b: &[u8]) -> (r: Option<Vec<u8>>)
    ensures
        is_point(r, secp256k1_difference(a@, b@)),
{
    let a = PublicKey::from_sec1_bytes(a).ok()?;
    let b = PublicKey::from_sec1_bytes(b).ok()?;
    let d = PublicKey::try_from(a.to_projective() - b.to_projective()).ok()?;
    Some(d.to_sec1_bytes().to_vec())
}

/// `k256::PublicKey::from_secret_scalar`, on a decoded scalar and with
/// the result encoded.
#[verifier::external_body]
pub(crate) fn public_key(secret: &[u8]) -> (r: Option<Vec<u8>>)
    ensures
        is_point(r, secp256k1_public_key(secret@)),
{
    let k = NonZeroScalar::from_repr(<[u8; 32]>::try_from(secret).ok()?.into()).into_option()?;
    Some(PublicKey::from_secret_scalar(&k).to_sec1_bytes().to_vec())
}

/// `k256::elliptic_curve::ecdh::diffie_hellman`, on decoded arguments:
/// the raw bytes of the shared secret.
#[verifier::external_body]
pub(crate) fn shared_secret(secret: &[u8], public: &[u8]) -> (r: Option<Vec<u8>>)
    ensures
        match r {
            Some(v) => secp256k1_shared_secret(secret@, public@) == Some(v@) && v@.len()
                == SCALAR_LEN,
            None => secp256k1_shared_secret(secret@, public@).is_none(),
        },
{
    let k = NonZeroScalar::from_repr(<[u8; 32]>::try_from(secret).ok()?.into()).into_option()?;
    let p = PublicKey::from_sec1_bytes(public).ok()?;
    Some(k256::elliptic_curve::ecdh::diffie_hellman(k, p.as_affine()).raw_secret_bytes().to_vec())
}

/// `k256::NonZeroScalar::random` on the operating system's generator,
/// encoded: 32 bytes, whichever scalar is drawn. What is drawn is a scalar
/// other than zero, so its bytes decode as one and it has a public key.
#[verifier::external_body]
pub(crate) fn random_secret() -> (r: Vec<u8>)
    ensures
        r@.len() == SCALAR_LEN,
        secp256k1_public_key(r@).is_some(),
{
    let k = NonZeroScalar::random(&mut k256::elliptic_curve::rand_core::OsRng);
    k.to_bytes().to_vec()
}

/// `k256::ProjectivePoint::random` on the operating system's generator,
/// made a public key and encoded: 33 bytes, whichever point is drawn, or
/// `None` on the point at infinity.
#[verifier::external_body]
pub(crate) fn random_point() -> (r: Option<Vec<u8>>)
    ensures
        r matches Some(v) ==> v@.len() == POINT_LEN,
{
    let p = ProjectivePoint::random(k256::elliptic_curve::rand_core::OsRng);
    Some(PublicKey::try_from(p).ok()?.to_sec1_bytes().to_vec())
}

/// `blake2::Blake2b512::digest`: the digest of `data`, 64 bytes.
#[verifier::external_body]
pub(crate) fn blake2b512(data: &[u8]) -> (r: Vec<u8>)
    ensures
        r@ == blake2b512_digest(data@),
        r@.len() == DIGEST_LEN,
{
    blake2::Blake2b512::digest(data).to_vec()
}

/// The scalar `i`: 32 bytes, most significant first.
pub open spec fn index_scalar_bytes(i: u64) -> Seq<u8> {
    Seq::new(
        SCALAR_LEN as nat,
        |k: int|
            if k < 24 {
                0u8
            } else {
                ((i >> ((8 * (31 - k)) as u64)) & 0xff) as u8
            },
    )
}

/// Encodes the index `i` as a scalar.
pub fn index_scalar(i: u64) -> (r: Vec<u8>)
    ensures
        r@ == index_scalar_bytes(i),
{
    let mut out: Vec<u8> = Vec::with_capacity(32);
    let mut k: usize = 0;
    while k < 32
        invariant
            k <= 32,
            out@.len() == k,
            forall|j: int| 0 <= j < k ==> out@[j] == index_scalar_bytes(i)[j],
        decreases 32 - k,
    {
        if k < 24 {
            out.push(0u8);
        } else {
            let shift: u64 = 8 * (31 - k as u64);
            let byte: u64 = (i >> shift) & 0xff;
            assert(byte <= 0xff) by (bit_vector)
                requires
                    byte == (i >> shift) & 0xff,
            ;
            out.push(byte as u8);
        }
        k += 1;
    }
    assert(out@ =~= index_scalar_bytes(i));
    out
}

} // verus!
