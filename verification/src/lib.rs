//! Cryptographic and algebraic core of a secure multi-party computation
//! toolkit: finite-field arithmetic, probabilistic primality testing,
//! oblivious transfer over secp256k1 and threshold secret sharing.
//!
//! - [`math`] holds the integers of fixed width, the residues modulo an
//!   odd number, the prime and the binary fields, and the primality tests.
//! - [`protocol`] holds the steps of the oblivious transfers, the secret
//!   sharing schemes and the decisions of a session's handshake. The
//!   sockets themselves are the caller's: each step takes the bytes that
//!   came in and returns the bytes to send.
//! - [`store`] says how values are written as bytes for a key-value store.
//!
//! Big-integer arithmetic is done by `crypto_bigint`, the curve by `k256`
//! and the hash by `blake2`; what is taken from them is stated where they
//! are called.

pub mod math;
pub mod protocol;
pub mod store;
