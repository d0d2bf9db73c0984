//! The reference functionality of secret sharing: every share is the
//! secret itself, and recovery takes the share that the majority vote of
//! Boyer and Moore puts in the lead, where it occurs as often as the
//! threshold asks. It hides nothing and serves as an oracle for tests only.

use crate::math::galois::FiniteField;
use crate::protocol::error::{Error, MPCErrorKind, Result};
use crate::protocol::shamir::{shares_wf, SSServer};
use vstd::array::array_fill_for_copy_types;
use vstd::prelude::*;

verus! {

/// The state of a majority vote: the share in the lead and by how many
/// votes it leads.
pub struct Tally<F> {
    pub lead: Option<F>,
    pub votes: nat,
}

/// The majority vote of Boyer and Moore over `shares`, taken in order: a
/// share equal to the one in the lead adds a vote; another share takes a
/// vote away, or takes the lead where no vote is left. A missing share
/// votes like any other value.
pub open spec fn tally<F>(shares: Seq<Option<F>>) -> Tally<F>
    decreases shares.len(),
{
    if shares.len() == 0 {
        Tally { lead: None, votes: 0 }
    } else {
        let before = tally(shares.drop_last());
        let share = shares.last();
        if share == before.lead {
            Tally { lead: before.lead, votes: before.votes + 1 }
        } else if before.votes == 0 {
            Tally { lead: share, votes: 1 }
        } else {
            Tally { lead: before.lead, votes: (before.votes - 1) as nat }
        }
    }
}

/// How often `share` occurs among `shares`.
pub open spec fn occurrences<F>(shares: Seq<Option<F>>, share: Option<F>) -> nat
    decreases shares.len(),
{
    if shares.len() == 0 {
        0
    } else {
        occurrences(shares.drop_last(), share) + if shares.last() == share { 1nat } else { 0nat }
    }
}

/// What recovery returns on `shares` with the threshold `t`: the share in
/// the lead of the vote, where that is no missing share and occurs `t`
/// times or more among the shares.
pub open spec fn recovered<F>(shares: Seq<Option<F>>, t: nat) -> Option<F> {
    let lead = tally(shares).lead;
    if lead.is_some() && occurrences(shares, lead) >= t {
        lead
    } else {
        None
    }
}

/// The server of the reference functionality.
pub struct Server<const T: usize, const N: usize>;

/// Whether two shares are the same.
fn same_share<F: FiniteField>(a: &Option<F>, b: &Option<F>) -> (r: bool)
    ensures
        r == (*a == *b),
{
    match (a, b) {
        (Some(x), Some(y)) => x.equals(y),
        (None, None) => true,
        _ => false,
    }
}

impl<const T: usize, const N: usize, F: FiniteField> SSServer<T, N, F> for Server<T, N> {
    /// Every share is the secret.
    fn split(&self, secret: F) -> (r: Result<[F; N]>)
        ensures
            r matches Ok(shares) && forall|i: int| 0 <= i < N ==> shares@[i] == secret,
    {
        let shares: [F; N] = array_fill_for_copy_types(secret);
        Ok(shares)
    }

    /// The share in the lead of the majority vote, where it occurs `T`
    /// times or more among the shares, and `InsufficientShares` where it
    /// does not or a missing share is in the lead. Where `T` is more than
    /// half of `N`, that is the one share that occurs `T` times or more, in
    /// whatever order the shares come.
    fn recover(&self, shares: &[Option<F>; N]) -> (r: Result<F>)
        ensures
            match r {
                Ok(secret) => {
                    &&& tally(shares@).lead == Some(secret)
                    &&& occurrences(shares@, Some(secret)) >= T
                    &&& recovered(shares@, T as nat) == Some(secret)
                },
                Err(e) => {
                    &&& e == Error::MPCError(MPCErrorKind::InsufficientShares)
                    &&& recovered(shares@, T as nat).is_none()
                    &&& !(tally(shares@).lead.is_some() && occurrences(shares@, tally(shares@).lead)
                        >= T)
                },
            },
    {
        let mut lead: Option<F> = None;
        let mut vote: usize = 0;
        let mut i: usize = 0;
        while i < N
            invariant
                i <= N,
                vote <= i,
                shares_wf(shares@),
                tally(shares@.take(i as int)) == (Tally { lead, votes: vote as nat }),
            decreases N - i,
        {
            proof {
                assert(shares@.take(i + 1).drop_last() =~= shares@.take(i as int));
            }
            let share = shares[i];
            if same_share(&share, &lead) {
                vote += 1;
            } else if vote == 0 {
                lead = share;
                vote = 1;
            } else {
                vote -= 1;
            }
            i += 1;
        }
        proof {
            assert(shares@.take(N as int) =~= shares@);
        }
        let mut count: usize = 0;
        let mut j: usize = 0;
        while j < N
            invariant
                j <= N,
                count <= j,
                shares_wf(shares@),
                count == occurrences(shares@.take(j as int), lead),
            decreases N - j,
        {
            proof {
                assert(shares@.take(j + 1).drop_last() =~= shares@.take(j as int));
            }
            let share = shares[j];
            if same_share(&share, &lead) {
                count += 1;
            }
            j += 1;
        }
        proof {
            assert(shares@.take(N as int) =~= shares@);
        }
        match lead {
            Some(secret) if count >= T => {
                proof {
                    lemma_lead_is_a_share(shares@);
                }
                Ok(secret)
            },
            _ => Err(Error::MPCError(MPCErrorKind::InsufficientShares)),
        }
    }
}

/// The share in the lead, where it is not a missing one, is one of the
/// shares.
pub proof fn lemma_lead_is_a_share<F>(shares: Seq<Option<F>>)
    ensures
        tally(shares).lead.is_some() ==> exists|i: int|
            0 <= i < shares.len() && #[trigger] shares[i] == tally(shares).lead,
    decreases shares.len(),
{
    if shares.len() > 0 {
        let rest = shares.drop_last();
        lemma_lead_is_a_share(rest);
        let before = tally(rest);
        if tally(shares).lead.is_some() {
            if shares.last() == tally(shares).lead {
                assert(shares[shares.len() - 1] == tally(shares).lead);
            } else {
                let i = choose|i: int| 0 <= i < rest.len() && #[trigger] rest[i] == before.lead;
                assert(shares[i] == tally(shares).lead);
            }
        }
    }
}

/// A share `s` that occurs `c` times among `n` shares ends in the lead with
/// `2c - n` votes or more, where that is more than none.
pub proof fn lemma_majority_leads<F>(shares: Seq<Option<F>>, s: Option<F>)
    ensures
        (if tally(shares).lead == s {
            tally(shares).votes as int
        } else {
            -(tally(shares).votes as int)
        }) >= 2 * occurrences(shares, s) - shares.len(),
    decreases shares.len(),
{
    if shares.len() > 0 {
        lemma_majority_leads(shares.drop_last(), s);
    }
}

/// Where the threshold `t` is more than half of the number of shares, a
/// secret that `t` shares or more are equal to is recovered, in whatever
/// order the shares come.
pub proof fn law_majority_recovers<F>(shares: Seq<Option<F>>, secret: F, t: nat)
    requires
        2 * t > shares.len(),
        occurrences(shares, Some(secret)) >= t,
    ensures
        recovered(shares, t) == Some(secret),
{
    lemma_majority_leads(shares, Some(secret));
}

/// Where the threshold `t` is more than half of the number of shares,
/// recovery goes by the number of equal shares alone: a secret is
/// recovered exactly where `t` shares or more are equal to it.
pub proof fn law_recovery_by_count<F>(shares: Seq<Option<F>>, secret: F, t: nat)
    requires
        2 * t > shares.len(),
    ensures
        recovered(shares, t) == Some(secret) <==> occurrences(shares, Some(secret)) >= t,
{
    if occurrences(shares, Some(secret)) >= t {
        law_majority_recovers(shares, secret, t);
    }
}

/// Where the threshold `t` is more than half of the number of shares,
/// recovery does not depend on the order of the shares: two lists of
/// shares in which every share occurs equally often recover the same.
pub proof fn law_recovery_ignores_order<F>(a: Seq<Option<F>>, b: Seq<Option<F>>, t: nat)
    requires
        a.len() == b.len(),
        2 * t > a.len(),
        forall|share: Option<F>| #[trigger] occurrences(a, share) == occurrences(b, share),
    ensures
        recovered(a, t) == recovered(b, t),
{
    match recovered(a, t) {
        Some(secret) => {
            assert(occurrences(a, Some(secret)) == occurrences(b, Some(secret)));
            law_majority_recovers(b, secret, t);
        },
        None => {
            match recovered(b, t) {
                Some(secret) => {
                    assert(occurrences(a, Some(secret)) == occurrences(b, Some(secret)));
                    law_majority_recovers(a, secret, t);
                },
                None => {},
            }
        },
    }
}

/// Where no share occurs `t` times, nothing is recovered, whatever the
/// threshold and the order of the shares.
pub proof fn law_too_few_fail<F>(shares: Seq<Option<F>>, t: nat)
    requires
        forall|secret: F| #[trigger] occurrences(shares, Some(secret)) < t,
    ensures
        recovered(shares, t).is_none(),
{
    if recovered(shares, t).is_some() {
        let secret = recovered(shares, t).unwrap();
        assert(occurrences(shares, Some(secret)) < t);
    }
}

/// From its own shares every secret split by the reference functionality
/// is recovered, where the threshold is at most the number of shares.
pub proof fn law_split_recovers<F>(shares: Seq<Option<F>>, secret: F, t: nat)
    requires
        shares.len() >= 1,
        t <= shares.len(),
        forall|i: int| 0 <= i < shares.len() ==> shares[i] == Some(secret),
    ensures
        recovered(shares, t) == Some(secret),
{
    lemma_constant_shares(shares, secret);
    lemma_majority_leads(shares, Some(secret));
}

/// Among shares that are all the secret, the secret occurs once for each.
pub proof fn lemma_constant_shares<F>(shares: Seq<Option<F>>, secret: F)
    requires
        forall|i: int| 0 <= i < shares.len() ==> shares[i] == Some(secret),
    ensures
        occurrences(shares, Some(secret)) == shares.len(),
    decreases shares.len(),
{
    if shares.len() > 0 {
        lemma_constant_shares(shares.drop_last(), secret);
    }
}

} // verus!
