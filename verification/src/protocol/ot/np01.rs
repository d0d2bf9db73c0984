//! The oblivious transfer of Naor and Pinkas over secp256k1.
//!
//! The sender draws one random point for each message but the first and
//! sends them. The receiver draws a secret scalar and answers with its
//! public key, or, for a choice `c` other than the first, with point `c`
//! less that public key. The sender draws a secret scalar of its own,
//! sends its public key and derives for message `i` the Diffie-Hellman
//! secret of its scalar and the receiver's answer (for the first message)
//! or point `i` less that answer; the digest of that secret and of `i`
//! pads the message. The receiver derives the one secret it can, from its
//! scalar and the sender's public key.

use crate::protocol::ot::curve::{
    blake2b512, blake2b512_digest, point_difference, public_key, random_point, random_secret,
    secp256k1_difference, secp256k1_public_key, secp256k1_shared_secret, shared_secret,
    DIGEST_LEN, POINT_LEN, SCALAR_LEN,
};
use crate::protocol::ot::{
    bytes_of, law_padded_round_trip, lemma_padded_fail, mask, masked, padded, pads_cover,
    received, sent, to_array, unpadded, wipe, Action, Choice, Step,
};
use vstd::bytes::{spec_u64_to_le_bytes, u64_to_le_bytes};
use vstd::prelude::*;

verus! {

/// The pad that belongs to a secret and an index: the digest of the secret
/// and of the index as eight bytes, least significant first.
pub open spec fn pad(secret: Seq<u8>, i: u64) -> Seq<u8> {
    blake2b512_digest(secret + spec_u64_to_le_bytes(i))
}

/// The public key against which the sender derives the secret of message
/// `i`: the receiver's answer `pk`, or point `i` less `pk`.
pub open spec fn sender_peer(sums: Seq<Seq<u8>>, pk: Seq<u8>, i: int) -> Option<Seq<u8>> {
    if i == 0 {
        Some(pk)
    } else if 0 < i <= sums.len() {
        secp256k1_difference(sums[i - 1], pk)
    } else {
        None
    }
}

/// The pad of message `i`, or `None` where its secret cannot be derived.
pub open spec fn sender_pad(secret: Seq<u8>, sums: Seq<Seq<u8>>, pk: Seq<u8>, i: int) -> Option<
    Seq<u8>,
> {
    match sender_peer(sums, pk, i) {
        Some(peer) => match secp256k1_shared_secret(secret, peer) {
            Some(shared) => Some(pad(shared, i as u64)),
            None => None,
        },
        None => None,
    }
}

/// The sender's last message: the messages in order, each under its pad;
/// or `None` where a secret cannot be derived.
pub open spec fn sender_ciphers<const L: usize>(
    secret: Seq<u8>,
    sums: Seq<Seq<u8>>,
    pk: Seq<u8>,
    messages: Seq<[u8; L]>,
) -> Option<Seq<u8>> {
    padded(messages, |i: int| sender_pad(secret, sums, pk, i))
}

/// The sender's first message: the points one after the other.
pub open spec fn joined(sums: Seq<Seq<u8>>) -> Seq<u8>
    decreases sums.len(),
{
    if sums.len() == 0 {
        Seq::empty()
    } else {
        joined(sums.drop_last()) + sums.last()
    }
}

/// The receiver's answer for the choice `c`: its public key, or point `c`
/// of the sender's first message less its public key.
pub open spec fn receiver_answer(masks: Seq<u8>, secret: Seq<u8>, c: nat, n: nat) -> Option<
    Seq<u8>,
> {
    if masks.len() != (n - 1) * POINT_LEN {
        None
    } else {
        match secp256k1_public_key(secret) {
            Some(pk) => if c == 0 {
                Some(pk)
            } else {
                secp256k1_difference(
                    masks.subrange((c - 1) * POINT_LEN, (c - 1) * POINT_LEN + POINT_LEN),
                    pk,
                )
            },
            None => None,
        }
    }
}

/// The receiver's pad, or `None` where its secret cannot be derived.
pub open spec fn receiver_pad(secret: Seq<u8>, sender_pk: Seq<u8>, c: nat) -> Option<Seq<u8>> {
    match secp256k1_shared_secret(secret, sender_pk) {
        Some(shared) => Some(pad(shared, c as u64)),
        None => None,
    }
}

/// What the receiver reads out of the sender's last message.
pub open spec fn receiver_message(
    secret: Seq<u8>,
    sender_pk: Seq<u8>,
    c: nat,
    n: nat,
    l: nat,
    ciphers: Seq<u8>,
) -> Option<Seq<u8>> {
    unpadded(ciphers, c, n, l, receiver_pad(secret, sender_pk, c))
}

/// Where both sides derive the same secret for the receiver's choice, the
/// receiver reads the message of its choice: the transfer is correct as
/// far as the secrets agree.
pub proof fn law_round_trip<const L: usize>(
    sender_secret: Seq<u8>,
    sums: Seq<Seq<u8>>,
    pk: Seq<u8>,
    receiver_secret: Seq<u8>,
    sender_pk: Seq<u8>,
    messages: Seq<[u8; L]>,
    c: nat,
)
    requires
        c < messages.len(),
        forall|shared: Seq<u8>, i: u64| (#[trigger] pad(shared, i)).len() >= L,
        sender_ciphers(sender_secret, sums, pk, messages).is_some(),
        receiver_pad(receiver_secret, sender_pk, c).is_some(),
        receiver_pad(receiver_secret, sender_pk, c) == sender_pad(
            sender_secret,
            sums,
            pk,
            c as int,
        ),
    ensures
        receiver_message(
            receiver_secret,
            sender_pk,
            c,
            messages.len(),
            L as nat,
            sender_ciphers(sender_secret, sums, pk, messages).unwrap(),
        ) == Some(messages[c as int]@),
{
    let pads = |i: int| sender_pad(sender_secret, sums, pk, i);
    assert(pads_cover(pads, L as nat));
    law_padded_round_trip(messages, pads, c);
}

/// What the sender does next, after `issued` steps: it sends its points,
/// awaits the receiver's answer, sends its public key, sends the messages
/// under their pads, and is done. The pads are made as soon as the answer
/// is there, and the answer is refused where they cannot be made;
/// `pending` is what the sender holds of them after the step.
pub open spec fn sender_step<const L: usize>(
    issued: nat,
    pulled: Option<Seq<u8>>,
    secret: Seq<u8>,
    sums: Seq<Seq<u8>>,
    pending: Seq<u8>,
    messages: Seq<[u8; L]>,
) -> Action {
    if issued == 0 && pulled.is_none() {
        Action::Push(joined(sums))
    } else if issued == 1 && pulled.is_none() {
        Action::Pull
    } else if issued == 2 && pulled.is_some() {
        match (
            secp256k1_public_key(secret),
            sender_ciphers(secret, sums, pulled.unwrap(), messages),
        ) {
            (Some(own), Some(_)) => Action::Push(own),
            _ => Action::Refused,
        }
    } else if issued == 3 && pulled.is_none() {
        Action::Push(pending)
    } else if issued == 4 && pulled.is_none() {
        Action::Done(Seq::empty())
    } else {
        Action::Refused
    }
}

/// What the receiver does next, after `issued` steps: it awaits the
/// sender's points, answers them, awaits the sender's public key and then
/// the messages under their pads, and is done with the message of its
/// choice. `receiver` and `sender_pk` are what it holds after the step.
pub open spec fn receiver_step<const N: usize>(
    issued: nat,
    pulled: Option<Seq<u8>>,
    receiver: Option<Receiver<N>>,
    sender_pk: Seq<u8>,
    l: nat,
) -> Action {
    if (issued == 0 || issued == 2) && pulled.is_none() {
        Action::Pull
    } else if issued == 1 && pulled.is_some() {
        match receiver {
            Some(r) => Action::Push(r.answer_bytes()),
            None => Action::Refused,
        }
    } else if issued == 3 && pulled.is_some() {
        Action::Pull
    } else if issued == 4 && pulled.is_some() {
        match receiver {
            Some(r) => match receiver_message(
                r.secret(),
                sender_pk,
                r.choice(),
                N as nat,
                l,
                pulled.unwrap(),
            ) {
                Some(message) => Action::Done(message),
                None => Action::Refused,
            },
            None => Action::Refused,
        }
    } else {
        Action::Refused
    }
}

/// The run of a sender with an honest receiver, step by step: the points
/// are pushed, the receiver's answer is pulled, the sender's public key is
/// pushed, then the messages under their pads, and the sender is done.
/// Nothing else is pushed.
pub proof fn law_sender_run<const L: usize>(
    secret: Seq<u8>,
    sums: Seq<Seq<u8>>,
    pk: Seq<u8>,
    messages: Seq<[u8; L]>,
)
    requires
        secp256k1_public_key(secret).is_some(),
        sender_ciphers(secret, sums, pk, messages).is_some(),
    ensures
        sender_step(0, None, secret, sums, Seq::empty(), messages) == Action::Push(joined(sums)),
        sender_step(1, None, secret, sums, Seq::empty(), messages) == Action::Pull,
        sender_step(
            2,
            Some(pk),
            secret,
            sums,
            sender_ciphers(secret, sums, pk, messages).unwrap(),
            messages,
        ) == Action::Push(secp256k1_public_key(secret).unwrap()),
        sender_step(
            3,
            None,
            secret,
            sums,
            sender_ciphers(secret, sums, pk, messages).unwrap(),
            messages,
        ) == Action::Push(sender_ciphers(secret, sums, pk, messages).unwrap()),
        sender_step(
            4,
            None,
            secret,
            sums,
            sender_ciphers(secret, sums, pk, messages).unwrap(),
            messages,
        ) == Action::Done(Seq::empty()),
{
}

/// The run of a receiver with an honest sender, step by step: the
/// sender's points are pulled, the answer is pushed, the sender's public
/// key and the messages under their pads are pulled, and the receiver is
/// done with what it reads out of them. Nothing is pushed but the answer.
pub proof fn law_receiver_run<const N: usize>(
    receiver: Receiver<N>,
    masks: Seq<u8>,
    sender_pk: Seq<u8>,
    ciphers: Seq<u8>,
    l: nat,
)
    requires
        receiver_message(
            receiver.secret(),
            sender_pk,
            receiver.choice(),
            N as nat,
            l,
            ciphers,
        ).is_some(),
    ensures
        receiver_step::<N>(0, None, None, Seq::empty(), l) == Action::Pull,
        receiver_step(1, Some(masks), Some(receiver), Seq::empty(), l) == Action::Push(
            receiver.answer_bytes(),
        ),
        receiver_step(2, None, Some(receiver), Seq::empty(), l) == Action::Pull,
        receiver_step(3, Some(sender_pk), Some(receiver), sender_pk, l) == Action::Pull,
        receiver_step(4, Some(ciphers), Some(receiver), sender_pk, l) == Action::Done(
            receiver_message(
                receiver.secret(),
                sender_pk,
                receiver.choice(),
                N as nat,
                l,
                ciphers,
            ).unwrap(),
        ),
{
}

/// The sender, once it has drawn its points and its secret scalar.
pub struct Sender {
    sums: Vec<Vec<u8>>,
    secret: Vec<u8>,
    issued: usize,
    pending: Vec<u8>,
}

impl Sender {
    /// The sender's points, one for each message but the first.
    pub closed spec fn sums(&self) -> Seq<Seq<u8>> {
        self.sums@.map_values(|p: Vec<u8>| p@)
    }

    /// The sender's secret scalar.
    pub closed spec fn secret(&self) -> Seq<u8> {
        self.secret@
    }

    /// How many steps of its run the sender has made.
    pub closed spec fn issued(&self) -> nat {
        self.issued as nat
    }

    /// The messages under their pads, from the step that makes them to the
    /// step that sends them.
    pub closed spec fn pending(&self) -> Seq<u8> {
        self.pending@
    }

    /// The sender with the points `sums` and the secret scalar `secret`.
    pub fn from_parts(sums: Vec<Vec<u8>>, secret: Vec<u8>) -> (r: Self)
        ensures
            r.sums() == sums@.map_values(|p: Vec<u8>| p@),
            r.secret() == secret@,
            r.issued() == 0,
            r.pending() == Seq::<u8>::empty(),
    {
        Sender { sums, secret, issued: 0, pending: Vec::new() }
    }

    /// A sender for `n` messages with points and a secret scalar drawn by
    /// the operating system's generator: one point of 33 bytes for each
    /// message but the first, and a secret of 32 bytes that has a public
    /// key. There is none only where a draw is the point at infinity; for
    /// one message or none no point is drawn, and there is always a
    /// sender.
    pub fn new(n: usize) -> (r: Option<Self>)
        ensures
            n <= 1 ==> r.is_some(),
            r matches Some(sender) ==> {
                &&& sender.sums().len() == if n == 0 { 0 } else { n - 1 }
                &&& forall|k: int|
                    0 <= k < sender.sums().len() ==> (#[trigger] sender.sums()[k]).len()
                        == POINT_LEN
                &&& sender.secret().len() == SCALAR_LEN
                &&& secp256k1_public_key(sender.secret()).is_some()
                &&& sender.issued() == 0
            },
    {
        let mut sums: Vec<Vec<u8>> = Vec::new();
        let mut i: usize = 1;
        while i < n
            invariant
                1 <= i,
                i <= n || i == 1,
                sums@.len() == i - 1,
                forall|k: int| 0 <= k < sums@.len() ==> (#[trigger] sums@[k])@.len() == POINT_LEN,
            decreases n - i,
        {
            match random_point() {
                Some(p) => sums.push(p),
                None => { return None; },
            }
            i += 1;
        }
        let ghost drawn = sums@;
        let sender = Sender { sums, secret: random_secret(), issued: 0, pending: Vec::new() };
        proof {
            assert(sender.sums@ == drawn);
            assert(sender.sums().len() == drawn.len());
            assert forall|k: int| 0 <= k < sender.sums().len() implies (#[trigger] sender.sums()[k]).len()
                == POINT_LEN by {
                assert(sender.sums()[k] == drawn[k]@);
            }
        }
        Some(sender)
    }

    /// Overwrites the secret scalar with zeros, once the transfer is over.
    pub fn wipe(&mut self)
        ensures
            final(self).secret() == Seq::new(old(self).secret().len(), |i: int| 0u8),
            final(self).sums() == old(self).sums(),
            final(self).issued() == old(self).issued(),
            final(self).pending() == old(self).pending(),
    {
        wipe(&mut self.secret);
    }

    /// The next step of the sender's run, given what was pulled since the
    /// last one. A step that is refused leaves the sender where it was.
    pub fn step<const N: usize, const L: usize>(
        &mut self,
        pulled: Option<&[u8]>,
        messages: &[[u8; L]; N],
    ) -> (r: Step<()>)
        requires
            L <= 64,
        ensures
            sent(r) == sender_step(
                old(self).issued(),
                bytes_of(pulled),
                old(self).secret(),
                old(self).sums(),
                final(self).pending(),
                messages@,
            ),
            final(self).issued() == if r is Refused {
                old(self).issued()
            } else {
                old(self).issued() + 1
            },
            final(self).secret() == old(self).secret(),
            final(self).sums() == old(self).sums(),
            final(self).pending() == if old(self).issued() == 2 && r is Push {
                sender_ciphers(
                    old(self).secret(),
                    old(self).sums(),
                    bytes_of(pulled).unwrap(),
                    messages@,
                ).unwrap()
            } else {
                old(self).pending()
            },
    {
        let step = match pulled {
            None => {
                if self.issued == 0 {
                    Step::Push(self.masks())
                } else if self.issued == 1 {
                    Step::Pull
                } else if self.issued == 3 {
                    Step::Push(vstd::slice::slice_to_vec(self.pending.as_slice()))
                } else if self.issued == 4 {
                    Step::Done(())
                } else {
                    Step::Refused
                }
            },
            Some(pk) => {
                if self.issued == 2 {
                    match (self.public(), self.ciphers(pk, messages)) {
                        (Some(own), Some(ciphers)) => {
                            self.pending = ciphers;
                            Step::Push(own)
                        },
                        _ => Step::Refused,
                    }
                } else {
                    Step::Refused
                }
            },
        };
        match step {
            Step::Refused => {},
            _ => {
                self.issued = self.issued + 1;
            },
        }
        step
    }

    /// The first message: the points one after the other, 33 bytes each
    /// where the points have that length.
    pub fn masks(&self) -> (r: Vec<u8>)
        ensures
            r@ == joined(self.sums()),
            (forall|k: int| 0 <= k < self.sums().len() ==> (#[trigger] self.sums()[k]).len()
                == POINT_LEN) ==> r@.len() == self.sums().len() * POINT_LEN,
    {
        let mut out: Vec<u8> = Vec::new();
        let mut i: usize = 0;
        while i < self.sums.len()
            invariant
                i <= self.sums@.len(),
                out@ == joined(self.sums().take(i as int)),
                (forall|k: int| 0 <= k < self.sums().len() ==> (#[trigger] self.sums()[k]).len()
                    == POINT_LEN) ==> out@.len() == i * POINT_LEN,
            decreases self.sums@.len() - i,
        {
            proof {
                assert(self.sums().take(i + 1).drop_last() =~= self.sums().take(i as int));
                assert(self.sums()[i as int] == self.sums@[i as int]@);
                assert((i + 1) * POINT_LEN == i * POINT_LEN + POINT_LEN) by (nonlinear_arith);
            }
            out.extend_from_slice(self.sums[i].as_slice());
            i += 1;
        }
        proof {
            assert(self.sums().take(self.sums@.len() as int) =~= self.sums());
        }
        out
    }

    /// The second message: the sender's public key, of 33 bytes; `None`
    /// where the secret is no scalar other than zero.
    pub fn public(&self) -> (r: Option<Vec<u8>>)
        ensures
            match r {
                Some(pk) => secp256k1_public_key(self.secret()) == Some(pk@) && pk@.len()
                    == POINT_LEN,
                None => secp256k1_public_key(self.secret()).is_none(),
            },
    {
        public_key(self.secret.as_slice())
    }

    /// The pad of message `i`, in answer to the receiver's public key `pk`.
    fn pad_of(&self, pk: &[u8], i: usize) -> (r: Option<Vec<u8>>)
        ensures
            match r {
                Some(p) => sender_pad(self.secret(), self.sums(), pk@, i as int) == Some(p@)
                    && p@.len() == DIGEST_LEN,
                None => sender_pad(self.secret(), self.sums(), pk@, i as int).is_none(),
            },
    {
        let peer = if i == 0 {
            vstd::slice::slice_to_vec(pk)
        } else if i <= self.sums.len() {
            match point_difference(self.sums[i - 1].as_slice(), pk) {
                Some(d) => d,
                None => { return None; },
            }
        } else {
            return None;
        };
        let shared = match shared_secret(self.secret.as_slice(), peer.as_slice()) {
            Some(shared) => shared,
            None => { return None; },
        };
        let ghost shared_bytes = shared@;
        let mut input = shared;
        let index = u64_to_le_bytes(i as u64);
        input.extend_from_slice(index.as_slice());
        proof {
            assert(input@ =~= shared_bytes + spec_u64_to_le_bytes(i as u64));
        }
        Some(blake2b512(input.as_slice()))
    }

    /// The last message, in answer to the receiver's public key `pk`: the
    /// `N` messages, each under its pad; or `None` where a secret cannot
    /// be derived.
    pub fn ciphers<const N: usize, const L: usize>(&self, pk: &[u8], messages: &[[u8; L]; N]) -> (out:
        Option<Vec<u8>>)
        requires
            L <= 64,
        ensures
            match out {
                Some(c) => sender_ciphers(self.secret(), self.sums(), pk@, messages@) == Some(c@)
                    && c@.len() == N * L,
                None => sender_ciphers(self.secret(), self.sums(), pk@, messages@).is_none(),
            },
    {
        let ghost pads = |i: int| sender_pad(self.secret(), self.sums(), pk@, i);
        let mut out: Vec<u8> = Vec::new();
        let mut i: usize = 0;
        while i < N
            invariant
                i <= N,
                L <= 64,
                pads == |i: int| sender_pad(self.secret(), self.sums(), pk@, i),
                padded(messages@.take(i as int), pads) == Some(out@),
                out@.len() == i * L,
            decreases N - i,
        {
            proof {
                assert(messages@.take(i + 1).drop_last() =~= messages@.take(i as int));
            }
            let digest = match self.pad_of(pk, i) {
                Some(digest) => digest,
                None => {
                    proof {
                        lemma_padded_fail(messages@, pads, i + 1);
                    }
                    return None;
                },
            };
            let message = &messages[i];
            let mut block = mask(message.as_slice(), digest.as_slice());
            proof {
                assert(block@.len() == L);
                assert((i + 1) * L == i * L + L) by (nonlinear_arith);
                let sofar = messages@.take(i + 1);
                assert(sofar.last() == messages@[i as int]);
                assert(pads(i as int) == Some(digest@));
            }
            out.append(&mut block);
            i += 1;
        }
        proof {
            assert(messages@.take(N as int) =~= messages@);
        }
        Some(out)
    }
}

/// The receiver, once it has drawn its secret scalar and answered the
/// sender.
pub struct Receiver<const N: usize> {
    secret: Vec<u8>,
    answer: Vec<u8>,
    choice: usize,
}

impl<const N: usize> Receiver<N> {
    /// The receiver's secret scalar.
    pub closed spec fn secret(&self) -> Seq<u8> {
        self.secret@
    }

    /// The receiver's answer to the sender's first message.
    pub closed spec fn answer_bytes(&self) -> Seq<u8> {
        self.answer@
    }

    /// The receiver's choice.
    pub closed spec fn choice(&self) -> nat {
        self.choice as nat
    }

    /// Whether the choice is in range.
    pub open spec fn well_formed(&self) -> bool {
        self.choice() < N
    }

    /// The receiver with the secret scalar `secret` and the choice
    /// `choice`, in answer to the sender's first message `masks`; or
    /// `None` where that has not the length of `N - 1` points, `secret` is
    /// no scalar other than zero, or the answer is the point at infinity.
    pub fn answer(masks: &[u8], secret: Vec<u8>, choice: &Choice<N>) -> (r: Option<Self>)
        requires
            N * POINT_LEN <= usize::MAX,
        ensures
            match r {
                Some(receiver) => {
                    &&& receiver.well_formed()
                    &&& receiver.secret() == secret@
                    &&& receiver.choice() == choice.index()
                    &&& receiver_answer(masks@, secret@, choice.index(), N as nat) == Some(
                        receiver.answer_bytes(),
                    )
                    &&& receiver.answer_bytes().len() == POINT_LEN
                },
                None => receiver_answer(masks@, secret@, choice.index(), N as nat).is_none(),
            },
    {
        let c = choice.get();
        proof {
            assert((N - 1) * POINT_LEN <= N * POINT_LEN) by (nonlinear_arith)
                requires
                    N >= 1,
            ;
            if c > 0 {
                assert(0 <= (c - 1) * POINT_LEN && (c - 1) * POINT_LEN + POINT_LEN <= (N - 1)
                    * POINT_LEN) by (nonlinear_arith)
                    requires
                        0 < c < N,
                ;
            }
        }
        if masks.len() != (N - 1) * POINT_LEN {
            return None;
        }
        let pk = match public_key(secret.as_slice()) {
            Some(pk) => pk,
            None => { return None; },
        };
        let answer = if c == 0 {
            pk
        } else {
            let start = (c - 1) * POINT_LEN;
            let sum = vstd::slice::slice_subrange(masks, start, start + POINT_LEN);
            match point_difference(sum, pk.as_slice()) {
                Some(d) => d,
                None => { return None; },
            }
        };
        Some(Receiver { secret, answer, choice: c })
    }

    /// A receiver with a secret scalar drawn by the operating system's
    /// generator, in answer to the sender's first message `masks`: 32 bytes
    /// are drawn and taken for the secret. The receiver holds those bytes,
    /// the choice and the answer that belongs to them. There is none where
    /// `masks` has not the length of `N - 1` points. Else there is always
    /// one for the first choice, whose answer is the public key of what is
    /// drawn, and for another choice none only where the answer cannot be
    /// computed from the bytes drawn.
    pub fn new(masks: &[u8], choice: &Choice<N>) -> (r: Option<Self>)
        requires
            N * POINT_LEN <= usize::MAX,
        ensures
            masks@.len() != (N - 1) * POINT_LEN ==> r.is_none(),
            masks@.len() == (N - 1) * POINT_LEN && choice.index() == 0 ==> r.is_some(),
            match r {
                Some(receiver) => {
                    &&& receiver.well_formed()
                    &&& receiver.choice() == choice.index()
                    &&& receiver.secret().len() == SCALAR_LEN
                    &&& receiver_answer(
                        masks@,
                        receiver.secret(),
                        choice.index(),
                        N as nat,
                    ) == Some(receiver.answer_bytes())
                    &&& receiver.answer_bytes().len() == POINT_LEN
                },
                None => exists|x: Seq<u8>|
                    x.len() == SCALAR_LEN && secp256k1_public_key(x).is_some()
                        && (#[trigger] receiver_answer(
                        masks@,
                        x,
                        choice.index(),
                        N as nat,
                    )).is_none(),
            },
    {
        let secret = random_secret();
        let ghost drawn = secret@;
        let receiver = Self::answer(masks, secret, choice);
        proof {
            if receiver.is_none() {
                assert(drawn.len() == SCALAR_LEN && secp256k1_public_key(drawn).is_some()
                    && receiver_answer(masks@, drawn, choice.index(), N as nat).is_none());
            }
        }
        receiver
    }

    /// Overwrites the secret scalar with zeros, once the transfer is over.
    pub fn wipe(&mut self)
        ensures
            final(self).secret() == Seq::new(old(self).secret().len(), |i: int| 0u8),
            final(self).answer_bytes() == old(self).answer_bytes(),
            final(self).choice() == old(self).choice(),
    {
        wipe(&mut self.secret);
    }

    /// The receiver's message: its answer.
    pub fn reply(&self) -> (r: &[u8])
        ensures
            r@ == self.answer_bytes(),
    {
        self.answer.as_slice()
    }

    /// The chosen message, read out of the sender's last message with the
    /// secret shared with the sender's public key `sender_pk`; or `None`
    /// where the message has not the length of `N` blocks of `L` bytes or
    /// the secret cannot be derived.
    pub fn decrypt<const L: usize>(&self, sender_pk: &[u8], ciphers: &[u8]) -> (out: Option<[u8; L]>)
        requires
            self.well_formed(),
            L <= 64,
            N * L <= usize::MAX,
        ensures
            match out {
                Some(m) => receiver_message(
                    self.secret(),
                    sender_pk@,
                    self.choice(),
                    N as nat,
                    L as nat,
                    ciphers@,
                ) == Some(m@),
                None => receiver_message(
                    self.secret(),
                    sender_pk@,
                    self.choice(),
                    N as nat,
                    L as nat,
                    ciphers@,
                ).is_none(),
            },
    {
        let shared = match shared_secret(self.secret.as_slice(), sender_pk) {
            Some(shared) => shared,
            None => { return None; },
        };
        if ciphers.len() != N * L {
            return None;
        }
        let ghost shared_bytes = shared@;
        let mut input = shared;
        let index = u64_to_le_bytes(self.choice as u64);
        input.extend_from_slice(index.as_slice());
        let digest = blake2b512(input.as_slice());
        proof {
            assert(0 <= self.choice * L && self.choice * L + L <= N * L) by (nonlinear_arith)
                requires
                    self.choice < N,
            ;
            assert(input@ =~= shared_bytes + spec_u64_to_le_bytes(self.choice as u64));
        }
        let start = self.choice * L;
        let block = vstd::slice::slice_subrange(ciphers, start, start + L);
        let plain = mask(block, digest.as_slice());
        Some(to_array(plain.as_slice()))
    }
}

/// The run of a receiver: its choice, how far it has come, and, as soon
/// as it has them, what it holds after its answer and the sender's public
/// key.
pub struct Reception<const N: usize> {
    choice: Choice<N>,
    issued: usize,
    receiver: Option<Receiver<N>>,
    sender_pk: Vec<u8>,
}

impl<const N: usize> Reception<N> {
    /// The receiver's choice.
    pub closed spec fn choice(&self) -> nat {
        self.choice.index()
    }

    /// How many steps of its run the receiver has made.
    pub closed spec fn issued(&self) -> nat {
        self.issued as nat
    }

    /// What the receiver holds, once it has answered the sender.
    pub closed spec fn receiver(&self) -> Option<Receiver<N>> {
        self.receiver
    }

    /// The sender's public key, once it is there.
    pub closed spec fn sender_pk(&self) -> Seq<u8> {
        self.sender_pk@
    }

    /// Whether the run holds, after its answer, a receiver for its choice,
    /// and none before.
    pub open spec fn well_formed(&self) -> bool {
        &&& self.issued() <= 5
        &&& match self.receiver() {
            Some(r) => self.issued() >= 2 && r.well_formed() && r.choice() == self.choice(),
            None => self.issued() <= 1,
        }
    }

    /// A run for the choice `choice`, with no step made.
    pub fn new(choice: Choice<N>) -> (r: Self)
        ensures
            r.well_formed(),
            r.choice() == choice.index(),
            r.issued() == 0,
            r.receiver().is_none(),
    {
        Reception { choice, issued: 0, receiver: None, sender_pk: Vec::new() }
    }

    /// The next step of the receiver's run, given what was pulled since
    /// the last one. In answer to the sender's points a secret scalar is
    /// drawn by the operating system's generator, and the run holds from
    /// then on the receiver that `Receiver::answer` makes of it; the points
    /// are refused where they have not the length of `N - 1` points or no
    /// receiver can be made of what was drawn. A step that is refused
    /// leaves the run where it was.
    pub fn step<const L: usize>(&mut self, pulled: Option<&[u8]>) -> (r: Step<[u8; L]>)
        requires
            old(self).well_formed(),
            L <= 64,
            N * L <= usize::MAX,
            N * POINT_LEN <= usize::MAX,
        ensures
            final(self).well_formed(),
            final(self).choice() == old(self).choice(),
            received(r) == receiver_step(
                old(self).issued(),
                bytes_of(pulled),
                final(self).receiver(),
                final(self).sender_pk(),
                L as nat,
            ),
            final(self).issued() == if r is Refused {
                old(self).issued()
            } else {
                old(self).issued() + 1
            },
            final(self).sender_pk() == if old(self).issued() == 3 && pulled.is_some() {
                bytes_of(pulled).unwrap()
            } else {
                old(self).sender_pk()
            },
            !(old(self).issued() == 1 && pulled.is_some()) ==> final(self).receiver() == old(
                self,
            ).receiver(),
            old(self).issued() == 1 && pulled.is_some() ==> match final(self).receiver() {
                Some(receiver) => {
                    &&& receiver.secret().len() == SCALAR_LEN
                    &&& receiver_answer(
                        bytes_of(pulled).unwrap(),
                        receiver.secret(),
                        receiver.choice(),
                        N as nat,
                    ) == Some(receiver.answer_bytes())
                    &&& receiver.answer_bytes().len() == POINT_LEN
                },
                None => bytes_of(pulled).unwrap().len() != (N - 1) * POINT_LEN || exists|x: Seq<u8>|
                    x.len() == SCALAR_LEN && secp256k1_public_key(x).is_some()
                        && (#[trigger] receiver_answer(
                        bytes_of(pulled).unwrap(),
                        x,
                        old(self).choice(),
                        N as nat,
                    )).is_none(),
            },
            old(self).issued() == 1 && pulled.is_some() && bytes_of(pulled).unwrap().len() == (N
                - 1) * POINT_LEN && old(self).choice() == 0 ==> r is Push,
    {
        let step = match pulled {
            None => {
                if self.issued == 0 || self.issued == 2 {
                    Step::Pull
                } else {
                    Step::Refused
                }
            },
            Some(bytes) => {
                if self.issued == 1 {
                    match Receiver::new(bytes, &self.choice) {
                        Some(receiver) => {
                            let answer = vstd::slice::slice_to_vec(receiver.reply());
                            self.receiver = Some(receiver);
                            Step::Push(answer)
                        },
                        None => {
                            proof {
                                if bytes@.len() == (N - 1) * POINT_LEN {
                                    let c = self.choice.index();
                                    let x = choose|x: Seq<u8>|
                                        x.len() == SCALAR_LEN && secp256k1_public_key(x).is_some()
                                            && (#[trigger] receiver_answer(
                                            bytes@,
                                            x,
                                            c,
                                            N as nat,
                                        )).is_none();
                                    assert(receiver_answer(
                                        bytes_of(pulled).unwrap(),
                                        x,
                                        old(self).choice(),
                                        N as nat,
                                    ).is_none());
                                    assert(exists|x: Seq<u8>|
                                        x.len() == SCALAR_LEN && secp256k1_public_key(x).is_some()
                                            && (#[trigger] receiver_answer(
                                            bytes_of(pulled).unwrap(),
                                            x,
                                            old(self).choice(),
                                            N as nat,
                                        )).is_none());
                                }
                            }
                            Step::Refused
                        },
                    }
                } else if self.issued == 3 {
                    self.sender_pk = vstd::slice::slice_to_vec(bytes);
                    Step::Pull
                } else if self.issued == 4 {
                    let message = match &self.receiver {
                        Some(receiver) => receiver.decrypt::<L>(self.sender_pk.as_slice(), bytes),
                        None => None,
                    };
                    match message {
                        Some(m) => Step::Done(m),
                        None => Step::Refused,
                    }
                } else {
                    Step::Refused
                }
            },
        };
        match step {
            Step::Refused => {},
            _ => {
                self.issued = self.issued + 1;
            },
        }
        step
    }

    /// Overwrites the receiver's secret scalar with zeros, once the
    /// transfer is over.
    pub fn wipe(&mut self)
        requires
            old(self).well_formed(),
        ensures
            final(self).well_formed(),
            final(self).issued() == old(self).issued(),
            final(self).choice() == old(self).choice(),
            final(self).sender_pk() == old(self).sender_pk(),
            match (old(self).receiver(), final(self).receiver()) {
                (Some(before), Some(after)) => {
                    &&& after.secret() == Seq::new(before.secret().len(), |i: int| 0u8)
                    &&& after.answer_bytes() == before.answer_bytes()
                },
                (None, None) => true,
                _ => false,
            },
    {
        match &mut self.receiver {
            Some(receiver) => receiver.wipe(),
            None => {},
        }
    }
}

} // verus!
