//! Secret sharing: a secret is split into `N` shares, of which `T` are
//! needed to recover it.

use crate::math::galois::FiniteField;
use crate::protocol::error::Result;
use vstd::prelude::*;

pub mod functionality;
pub mod lagrange;
pub mod polynomial;

verus! {

/// The field of the shares that are present.
pub open spec fn shares_field<F: FiniteField>(shares: Seq<Option<F>>) -> nat {
    if exists|i: int| 0 <= i < shares.len() && (#[trigger] shares[i]).is_some() {
        let i = choose|i: int| 0 <= i < shares.len() && (#[trigger] shares[i]).is_some();
        shares[i].unwrap().structure()
    } else {
        0
    }
}

/// Whether every share that is present is a valid element of one field.
pub open spec fn shares_wf<F: FiniteField>(shares: Seq<Option<F>>) -> bool {
    forall|i: int|
        0 <= i < shares.len() ==> (#[trigger] shares[i] matches Some(s) ==> s.wf() && s.structure()
            == shares_field(shares))
}

/// A (T, N) secret-sharing server over the field `F`.
pub trait SSServer<const T: usize, const N: usize, F: FiniteField> {
    /// Sets the server up; by default there is nothing to do.
    fn prepare(&self) -> (r: Result<()>)
        ensures
            r.is_ok(),
    {
        Ok(())
    }

    /// Splits `secret` into `N` shares.
    fn split(&self, secret: F) -> (r: Result<[F; N]>)
        requires
            secret.wf(),
        ensures
            r matches Ok(shares) ==> forall|i: int| 0 <= i < N ==> (#[trigger] shares@[i]).wf(),
    ;

    /// Recovers the secret from the shares that are present.
    fn recover(&self, shares: &[Option<F>; N]) -> (r: Result<F>)
        requires
            shares_wf(shares@),
        ensures
            r matches Ok(secret) ==> secret.wf(),
    ;
}

} // verus!
