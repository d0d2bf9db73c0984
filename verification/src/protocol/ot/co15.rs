//! The oblivious transfer of Chou and Orlandi over secp256k1.
//!
//! The sender draws a scalar `y` and sends `S = y G`. The receiver draws a
//! scalar `x` and answers `R = c S + x G` for its choice `c`. The sender
//! pads message `i` with the digest of the key `y R - i T`, where
//! `T = y S`, followed by `S` and `R`; the receiver takes the pad of the
//! key `x S` off the block of its choice. Each side hashes the other's
//! point in its compressed encoding, whatever bytes it came in.

use crate::protocol::ot::curve::{
    base_mul, blake2b512, blake2b512_digest, index_scalar, index_scalar_bytes, lincomb,
    negated_scalar, point_encoding, point_mul, random_scalar, secp256k1_base_mul,
    secp256k1_lincomb, secp256k1_mul, secp256k1_negated, secp256k1_point, DIGEST_LEN, POINT_LEN,
    SCALAR_LEN,
};
use crate::protocol::ot::{
    bytes_of, law_padded_round_trip, lemma_padded_fail, mask, masked, padded, pads_cover,
    received, sent, to_array, unpadded, wipe, Action, Choice, Step,
};
use vstd::prelude::*;

verus! {

/// The pad that belongs to a key: the digest of the key, `S` and `R`.
pub open spec fn pad(key: Seq<u8>, s: Seq<u8>, r: Seq<u8>) -> Seq<u8> {
    blake2b512_digest(key + s + r)
}

/// The sender's key for message `i`: the point `y R - i T`.
pub open spec fn sender_key(y: Seq<u8>, t: Seq<u8>, r: Seq<u8>, i: u64) -> Option<Seq<u8>> {
    secp256k1_lincomb(r, y, t, secp256k1_negated(i))
}

/// The receiver's key: the point `x S`.
pub open spec fn receiver_key(x: Seq<u8>, s: Seq<u8>) -> Option<Seq<u8>> {
    secp256k1_mul(s, x)
}

/// The receiver's answer for the choice `c`: the point `c S + x G`.
pub open spec fn receiver_point(s: Seq<u8>, x: Seq<u8>, c: u64) -> Option<Seq<u8>> {
    match secp256k1_base_mul(index_scalar_bytes(1)) {
        Some(g) => secp256k1_lincomb(s, index_scalar_bytes(c), g, x),
        None => None,
    }
}

/// Whether the bytes `y` can serve as the scalar of a sender: the points
/// `y G` and `y (y G)` can be computed from them.
pub open spec fn sender_scalar(y: Seq<u8>) -> bool {
    match secp256k1_base_mul(y) {
        Some(s) => secp256k1_mul(s, y).is_some(),
        None => false,
    }
}

/// The pad of message `i`: the digest of its key, of the sender's own `S`
/// and of the compressed encoding of the point that the bytes `r` stand
/// for; or `None` where `r` stands for no point or the key cannot be
/// computed.
pub open spec fn sender_pad(y: Seq<u8>, s: Seq<u8>, t: Seq<u8>, r: Seq<u8>, i: int) -> Option<
    Seq<u8>,
> {
    match (secp256k1_point(r), sender_key(y, t, r, i as u64)) {
        (Some(encoding), Some(key)) => Some(pad(key, s, encoding)),
        _ => None,
    }
}

/// The receiver's pad: the digest of its key, of the compressed encoding
/// of the point that the bytes `s` stand for and of the receiver's own
/// `R`; or `None` where `s` stands for no point or the key cannot be
/// computed.
pub open spec fn receiver_pad(x: Seq<u8>, s: Seq<u8>, r: Seq<u8>) -> Option<Seq<u8>> {
    match (secp256k1_point(s), receiver_key(x, s)) {
        (Some(encoding), Some(key)) => Some(pad(key, encoding, r)),
        _ => None,
    }
}

/// The sender's second message: the messages in order, each under the pad
/// of its key; or `None` where `r` stands for no point or a key cannot be
/// computed.
pub open spec fn sender_ciphers<const L: usize>(
    y: Seq<u8>,
    s: Seq<u8>,
    t: Seq<u8>,
    r: Seq<u8>,
    messages: Seq<[u8; L]>,
) -> Option<Seq<u8>> {
    if secp256k1_point(r).is_some() {
        padded(messages, |i: int| sender_pad(y, s, t, r, i))
    } else {
        None
    }
}

/// What the receiver reads out of the sender's second message: the block
/// of its choice with the pad of its key taken off; or `None` where the
/// message has not the length of `n` blocks of `l` bytes or the key cannot
/// be computed.
pub open spec fn receiver_message(
    x: Seq<u8>,
    s: Seq<u8>,
    r: Seq<u8>,
    c: nat,
    n: nat,
    l: nat,
    ciphers: Seq<u8>,
) -> Option<Seq<u8>> {
    unpadded(ciphers, c, n, l, receiver_pad(x, s, r))
}

/// Where both sides hold the same key for the receiver's choice, and the
/// points `s` and `r` are in their compressed encoding, as the points are
/// that either side computes, the receiver reads the message of its
/// choice: the transfer is correct as far as the keys agree.
pub proof fn law_round_trip<const L: usize>(
    y: Seq<u8>,
    x: Seq<u8>,
    s: Seq<u8>,
    t: Seq<u8>,
    r: Seq<u8>,
    messages: Seq<[u8; L]>,
    c: nat,
)
    requires
        c < messages.len(),
        forall|key: Seq<u8>| (#[trigger] pad(key, s, r)).len() >= L,
        sender_ciphers(y, s, t, r, messages).is_some(),
        secp256k1_point(s) == Some(s),
        secp256k1_point(r) == Some(r),
        receiver_key(x, s).is_some(),
        receiver_key(x, s) == sender_key(y, t, r, c as u64),
    ensures
        receiver_message(
            x,
            s,
            r,
            c,
            messages.len(),
            L as nat,
            sender_ciphers(y, s, t, r, messages).unwrap(),
        ) == Some(messages[c as int]@),
{
    let pads = |i: int| sender_pad(y, s, t, r, i);
    assert(pads_cover(pads, L as nat));
    law_padded_round_trip(messages, pads, c);
}

/// The sender's second message gives a message away through its own block
/// alone: where two lists of messages agree in message `i`, the second
/// messages for them, under one scalar and in answer to one point, agree
/// in block `i`. The first message, the point `S`, is made before any
/// message is given.
pub proof fn law_block_of_its_message<const L: usize>(
    y: Seq<u8>,
    s: Seq<u8>,
    t: Seq<u8>,
    r: Seq<u8>,
    messages: Seq<[u8; L]>,
    others: Seq<[u8; L]>,
    i: int,
)
    requires
        messages.len() == others.len(),
        0 <= i < messages.len(),
        messages[i]@ == others[i]@,
        forall|key: Seq<u8>, encoding: Seq<u8>| (#[trigger] pad(key, s, encoding)).len() >= L,
        sender_ciphers(y, s, t, r, messages).is_some(),
    ensures
        sender_ciphers(y, s, t, r, others).is_some(),
        sender_ciphers(y, s, t, r, messages).unwrap().subrange(i * L, i * L + L)
            == sender_ciphers(y, s, t, r, others).unwrap().subrange(i * L, i * L + L),
{
    let pads = |i: int| sender_pad(y, s, t, r, i);
    assert(pads_cover(pads, L as nat));
    crate::protocol::ot::law_block_of_its_message(messages, others, pads, i);
}

/// The receiver reads the sender's second message through the block of
/// its choice alone: two such messages of one length that agree in that
/// block give it the same. Its own message, the point `R`, is made before
/// any of them is seen.
pub proof fn law_reads_its_block(
    x: Seq<u8>,
    s: Seq<u8>,
    r: Seq<u8>,
    c: nat,
    n: nat,
    l: nat,
    ciphers: Seq<u8>,
    others: Seq<u8>,
)
    requires
        ciphers.len() == others.len(),
        ciphers.subrange((c * l) as int, (c * l + l) as int) == others.subrange(
            (c * l) as int,
            (c * l + l) as int,
        ),
    ensures
        receiver_message(x, s, r, c, n, l, ciphers) == receiver_message(x, s, r, c, n, l, others),
{
    crate::protocol::ot::law_reads_its_block(ciphers, others, c, n, l, receiver_pad(x, s, r));
}

/// What the sender does next, after `issued` steps: it sends its point
/// `S`, awaits the receiver's point, sends the messages under their pads
/// in answer to it, and is done. Nothing else is sent; a point that is
/// none, or a message where none is due, is refused.
pub open spec fn sender_step<const L: usize>(
    issued: nat,
    pulled: Option<Seq<u8>>,
    y: Seq<u8>,
    s: Seq<u8>,
    t: Seq<u8>,
    messages: Seq<[u8; L]>,
) -> Action {
    if issued == 0 && pulled.is_none() {
        Action::Push(s)
    } else if issued == 1 && pulled.is_none() {
        Action::Pull
    } else if issued == 2 && pulled.is_some() {
        match sender_ciphers(y, s, t, pulled.unwrap(), messages) {
            Some(ciphers) => Action::Push(ciphers),
            None => Action::Refused,
        }
    } else if issued == 3 && pulled.is_none() {
        Action::Done(Seq::empty())
    } else {
        Action::Refused
    }
}

/// What the receiver does next, after `issued` steps: it awaits the
/// sender's point, answers with its own point `R`, awaits the messages
/// under their pads, and is done with the message of its choice. `receiver`
/// is what it holds after the step: nothing before it has answered.
pub open spec fn receiver_step<const N: usize>(
    issued: nat,
    pulled: Option<Seq<u8>>,
    receiver: Option<Receiver<N>>,
    l: nat,
) -> Action {
    if (issued == 0 || issued == 2) && pulled.is_none() {
        Action::Pull
    } else if issued == 1 && pulled.is_some() {
        match receiver {
            Some(r) => Action::Push(r.point()),
            None => Action::Refused,
        }
    } else if issued == 3 && pulled.is_some() {
        match receiver {
            Some(r) => match receiver_message(
                r.secret(),
                r.sender_point(),
                r.point(),
                r.choice(),
                N as nat,
                l,
                pulled.unwrap(),
            ) {
                Some(message) => Action::Done(message),
                None => Action::Refused,
            },
            None => Action::Refused,
        }
    } else {
        Action::Refused
    }
}

/// The run of a sender with an honest receiver, step by step: the point
/// `S` is pushed, the receiver's point is pulled, the messages under their
/// pads are pushed, and the sender is done. `S` is fixed before a message
/// is read, and nothing is pushed but `S` and the padded messages.
pub proof fn law_sender_run<const L: usize>(
    y: Seq<u8>,
    s: Seq<u8>,
    t: Seq<u8>,
    r: Seq<u8>,
    messages: Seq<[u8; L]>,
    others: Seq<[u8; L]>,
)
    requires
        sender_ciphers(y, s, t, r, messages).is_some(),
    ensures
        sender_step(0, None, y, s, t, messages) == Action::Push(s),
        sender_step(0, None, y, s, t, others) == Action::Push(s),
        sender_step(1, None, y, s, t, messages) == Action::Pull,
        sender_step(2, Some(r), y, s, t, messages) == Action::Push(
            sender_ciphers(y, s, t, r, messages).unwrap(),
        ),
        sender_step(3, None, y, s, t, messages) == Action::Done(Seq::empty()),
{
}

/// The run of a receiver with an honest sender, step by step: the
/// sender's point is pulled, the point `R` is pushed, the messages under
/// their pads are pulled, and the receiver is done with what it reads out
/// of them. `R` is fixed before they are seen, and nothing is pushed but
/// `R`.
pub proof fn law_receiver_run<const N: usize>(
    receiver: Receiver<N>,
    s: Seq<u8>,
    ciphers: Seq<u8>,
    others: Seq<u8>,
    l: nat,
)
    requires
        receiver_message(
            receiver.secret(),
            receiver.sender_point(),
            receiver.point(),
            receiver.choice(),
            N as nat,
            l,
            ciphers,
        ).is_some(),
    ensures
        receiver_step::<N>(0, None, None, l) == Action::Pull,
        receiver_step(1, Some(s), Some(receiver), l) == Action::Push(receiver.point()),
        receiver_step(2, None, Some(receiver), l) == Action::Pull,
        receiver_step(3, Some(ciphers), Some(receiver), l) == Action::Done(
            receiver_message(
                receiver.secret(),
                receiver.sender_point(),
                receiver.point(),
                receiver.choice(),
                N as nat,
                l,
                ciphers,
            ).unwrap(),
        ),
        forall|issued: nat, pulled: Option<Seq<u8>>|
            receiver_step(issued, pulled, Some(receiver), l) is Push ==> receiver_step(
                issued,
                pulled,
                Some(receiver),
                l,
            ) == Action::Push(receiver.point()),
{
}

/// The sender, once it has drawn its scalar.
pub struct Sender {
    y: Vec<u8>,
    s: Vec<u8>,
    t: Vec<u8>,
    issued: usize,
}

impl Sender {
    /// The sender's scalar `y`.
    pub closed spec fn secret(&self) -> Seq<u8> {
        self.y@
    }

    /// The sender's point `S`.
    pub closed spec fn point(&self) -> Seq<u8> {
        self.s@
    }

    /// The sender's point `T`.
    pub closed spec fn square(&self) -> Seq<u8> {
        self.t@
    }

    /// How many steps of its run the sender has made.
    pub closed spec fn issued(&self) -> nat {
        self.issued as nat
    }

    /// Whether the points belong to the scalar: `S = y G` and `T = y S`.
    pub open spec fn well_formed(&self) -> bool {
        &&& secp256k1_base_mul(self.secret()) == Some(self.point())
        &&& secp256k1_mul(self.point(), self.secret()) == Some(self.square())
        &&& self.point().len() == POINT_LEN
        &&& self.square().len() == POINT_LEN
    }

    /// The sender with the scalar `y`, or `None` where `y` is no scalar.
    pub fn from_secret(y: Vec<u8>) -> (r: Option<Self>)
        ensures
            match r {
                Some(sender) => sender.well_formed() && sender.secret() == y@ && sender.issued()
                    == 0,
                None => match secp256k1_base_mul(y@) {
                    Some(s) => secp256k1_mul(s, y@).is_none(),
                    None => true,
                },
            },
    {
        let s = match base_mul(y.as_slice()) {
            Some(s) => s,
            None => { return None; },
        };
        let t = match point_mul(s.as_slice(), y.as_slice()) {
            Some(t) => t,
            None => { return None; },
        };
        Some(Sender { y, s, t, issued: 0 })
    }

    /// A sender with a scalar drawn by the operating system's generator:
    /// 32 bytes are drawn and taken for the scalar. The sender holds those
    /// bytes and the points that belong to them. What is drawn is a scalar,
    /// so `S` can be computed; there is no sender only where `T` cannot.
    pub fn new() -> (r: Option<Self>)
        ensures
            match r {
                Some(sender) => {
                    &&& sender.well_formed()
                    &&& sender.secret().len() == SCALAR_LEN
                    &&& sender_scalar(sender.secret())
                    &&& sender.issued() == 0
                },
                None => exists|y: Seq<u8>|
                    y.len() == SCALAR_LEN && secp256k1_base_mul(y).is_some()
                        && !#[trigger] sender_scalar(y),
            },
    {
        let y = random_scalar();
        let ghost drawn = y@;
        let sender = Self::from_secret(y);
        proof {
            if sender.is_none() {
                assert(drawn.len() == SCALAR_LEN && secp256k1_base_mul(drawn).is_some()
                    && !sender_scalar(drawn));
            }
        }
        sender
    }

    /// Overwrites the scalar with zeros, once the transfer is over.
    pub fn wipe(&mut self)
        ensures
            final(self).secret() == Seq::new(old(self).secret().len(), |i: int| 0u8),
            final(self).point() == old(self).point(),
            final(self).square() == old(self).square(),
            final(self).issued() == old(self).issued(),
    {
        wipe(&mut self.y);
    }

    /// The next step of the sender's run, given what was pulled since the
    /// last one. A step that is refused leaves the sender where it was.
    pub fn step<const N: usize, const L: usize>(
        &mut self,
        pulled: Option<&[u8]>,
        messages: &[[u8; L]; N],
    ) -> (r: Step<()>)
        requires
            L <= 64,
        ensures
            sent(r) == sender_step(
                old(self).issued(),
                bytes_of(pulled),
                old(self).secret(),
                old(self).point(),
                old(self).square(),
                messages@,
            ),
            final(self).issued() == if r is Refused {
                old(self).issued()
            } else {
                old(self).issued() + 1
            },
            final(self).secret() == old(self).secret(),
            final(self).point() == old(self).point(),
            final(self).square() == old(self).square(),
    {
        let step = match pulled {
            None => {
                if self.issued == 0 {
                    Step::Push(vstd::slice::slice_to_vec(self.s.as_slice()))
                } else if self.issued == 1 {
                    Step::Pull
                } else if self.issued == 3 {
                    Step::Done(())
                } else {
                    Step::Refused
                }
            },
            Some(r) => {
                if self.issued == 2 {
                    match self.ciphers(r, messages) {
                        Some(ciphers) => Step::Push(ciphers),
                        None => Step::Refused,
                    }
                } else {
                    Step::Refused
                }
            },
        };
        match step {
            Step::Refused => {},
            _ => {
                self.issued = self.issued + 1;
            },
        }
        step
    }

    /// The first message: the point `S`, which has 33 bytes.
    pub fn hello(&self) -> (r: &[u8])
        ensures
            r@ == self.point(),
            self.well_formed() ==> r@.len() == POINT_LEN,
    {
        self.s.as_slice()
    }

    /// The second message, in answer to the receiver's point `r`: the `N`
    /// messages, each under the pad of its key; or `None` where `r` is no
    /// point.
    pub fn ciphers<const N: usize, const L: usize>(&self, r: &[u8], messages: &[[u8; L]; N]) -> (out:
        Option<Vec<u8>>)
        requires
            L <= 64,
        ensures
            match out {
                Some(c) => sender_ciphers(
                    self.secret(),
                    self.point(),
                    self.square(),
                    r@,
                    messages@,
                ) == Some(c@) && c@.len() == N * L,
                None => sender_ciphers(
                    self.secret(),
                    self.point(),
                    self.square(),
                    r@,
                    messages@,
                ).is_none(),
            },
    {
        let ghost pads = |i: int| sender_pad(self.secret(), self.point(), self.square(), r@, i);
        let encoding = match point_encoding(r) {
            Some(encoding) => encoding,
            None => { return None; },
        };
        let mut out: Vec<u8> = Vec::new();
        let mut i: usize = 0;
        while i < N
            invariant
                i <= N,
                L <= 64,
                pads == |i: int| sender_pad(self.secret(), self.point(), self.square(), r@, i),
                secp256k1_point(r@) == Some(encoding@),
                padded(messages@.take(i as int), pads) == Some(out@),
                out@.len() == i * L,
            decreases N - i,
        {
            proof {
                assert(messages@.take(i + 1).drop_last() =~= messages@.take(i as int));
            }
            let minus_i = negated_scalar(i as u64);
            let key = match lincomb(r, self.y.as_slice(), self.t.as_slice(), minus_i.as_slice()) {
                Some(key) => key,
                None => {
                    proof {
                        lemma_padded_fail(messages@, pads, i + 1);
                    }
                    return None;
                },
            };
            let ghost key_bytes = key@;
            let mut input = key;
            input.extend_from_slice(self.s.as_slice());
            input.extend_from_slice(encoding.as_slice());
            let digest = blake2b512(input.as_slice());
            let message = &messages[i];
            let mut block = mask(message.as_slice(), digest.as_slice());
            proof {
                assert(block@.len() == L);
                assert((i + 1) * L == i * L + L) by (nonlinear_arith);
                let sofar = messages@.take(i + 1);
                assert(sofar.last() == messages@[i as int]);
                assert(sofar.len() - 1 == i);
                assert(sender_key(self.secret(), self.square(), r@, i as u64) == Some(key_bytes));
                assert(input@ =~= key_bytes + self.point() + encoding@);
                assert(pads(i as int) == Some(pad(key_bytes, self.point(), encoding@)));
                assert(block@ == masked(
                    messages@[i as int]@,
                    pad(key_bytes, self.point(), encoding@),
                ));
            }
            out.append(&mut block);
            i += 1;
        }
        proof {
            assert(messages@.take(N as int) =~= messages@);
        }
        Some(out)
    }
}

/// The receiver, once it has drawn its scalar and answered the sender.
pub struct Receiver<const N: usize> {
    x: Vec<u8>,
    s: Vec<u8>,
    r: Vec<u8>,
    choice: usize,
}

impl<const N: usize> Receiver<N> {
    /// The receiver's scalar `x`.
    pub closed spec fn secret(&self) -> Seq<u8> {
        self.x@
    }

    /// The sender's point `S`.
    pub closed spec fn sender_point(&self) -> Seq<u8> {
        self.s@
    }

    /// The receiver's point `R`.
    pub closed spec fn point(&self) -> Seq<u8> {
        self.r@
    }

    /// The receiver's choice.
    pub closed spec fn choice(&self) -> nat {
        self.choice as nat
    }

    /// Whether the choice is in range.
    pub open spec fn well_formed(&self) -> bool {
        self.choice() < N
    }

    /// The receiver with the scalar `x` and the choice `choice`, in answer
    /// to the sender's point `s`; or `None` where `s` is no point or `x` no
    /// scalar.
    pub fn answer(s: &[u8], x: Vec<u8>, choice: &Choice<N>) -> (r: Option<Self>)
        ensures
            match r {
                Some(receiver) => {
                    &&& receiver.well_formed()
                    &&& receiver.secret() == x@
                    &&& receiver.sender_point() == s@
                    &&& receiver.choice() == choice.index()
                    &&& receiver_point(s@, x@, choice.index() as u64) == Some(receiver.point())
                    &&& receiver.point().len() == POINT_LEN
                },
                None => receiver_point(s@, x@, choice.index() as u64).is_none(),
            },
    {
        let c = choice.get();
        let one = index_scalar(1);
        let g = match base_mul(one.as_slice()) {
            Some(g) => g,
            None => { return None; },
        };
        let coefficient = index_scalar(c as u64);
        let r = match lincomb(s, coefficient.as_slice(), g.as_slice(), x.as_slice()) {
            Some(r) => r,
            None => { return None; },
        };
        Some(Receiver { x, s: vstd::slice::slice_to_vec(s), r, choice: c })
    }

    /// A receiver with a scalar drawn by the operating system's generator,
    /// in answer to the sender's point `s`: 32 bytes are drawn and taken for
    /// the scalar `x`. The receiver holds those bytes, the sender's point,
    /// the choice and the point `R` that belongs to them; there is none only
    /// where `R` cannot be computed from the bytes drawn.
    pub fn new(s: &[u8], choice: &Choice<N>) -> (r: Option<Self>)
        ensures
            match r {
                Some(receiver) => {
                    &&& receiver.well_formed()
                    &&& receiver.sender_point() == s@
                    &&& receiver.choice() == choice.index()
                    &&& receiver.secret().len() == SCALAR_LEN
                    &&& receiver_point(s@, receiver.secret(), choice.index() as u64) == Some(
                        receiver.point(),
                    )
                    &&& receiver.point().len() == POINT_LEN
                },
                None => exists|x: Seq<u8>|
                    x.len() == SCALAR_LEN && secp256k1_base_mul(x).is_some()
                        && (#[trigger] receiver_point(s@, x, choice.index() as u64)).is_none(),
            },
    {
        let x = random_scalar();
        let ghost drawn = x@;
        let receiver = Self::answer(s, x, choice);
        proof {
            if receiver.is_none() {
                assert(drawn.len() == SCALAR_LEN && secp256k1_base_mul(drawn).is_some()
                    && receiver_point(s@, drawn, choice.index() as u64).is_none());
            }
        }
        receiver
    }

    /// Overwrites the scalar with zeros, once the transfer is over.
    pub fn wipe(&mut self)
        ensures
            final(self).secret() == Seq::new(old(self).secret().len(), |i: int| 0u8),
            final(self).point() == old(self).point(),
            final(self).sender_point() == old(self).sender_point(),
            final(self).choice() == old(self).choice(),
    {
        wipe(&mut self.x);
    }

    /// The receiver's message: the point `R`.
    pub fn reply(&self) -> (r: &[u8])
        ensures
            r@ == self.point(),
    {
        self.r.as_slice()
    }

    /// The chosen message, read out of the sender's second message; or
    /// `None` where that has not the length of `N` blocks of `L` bytes.
    pub fn decrypt<const L: usize>(&self, ciphers: &[u8]) -> (out: Option<[u8; L]>)
        requires
            self.well_formed(),
            L <= 64,
            N * L <= usize::MAX,
        ensures
            match out {
                Some(m) => receiver_message(
                    self.secret(),
                    self.sender_point(),
                    self.point(),
                    self.choice(),
                    N as nat,
                    L as nat,
                    ciphers@,
                ) == Some(m@),
                None => receiver_message(
                    self.secret(),
                    self.sender_point(),
                    self.point(),
                    self.choice(),
                    N as nat,
                    L as nat,
                    ciphers@,
                ).is_none(),
            },
    {
        let encoding = match point_encoding(self.s.as_slice()) {
            Some(encoding) => encoding,
            None => { return None; },
        };
        let key = match point_mul(self.s.as_slice(), self.x.as_slice()) {
            Some(key) => key,
            None => { return None; },
        };
        if ciphers.len() != N * L {
            return None;
        }
        let ghost key_bytes = key@;
        let mut input = key;
        input.extend_from_slice(encoding.as_slice());
        input.extend_from_slice(self.r.as_slice());
        let digest = blake2b512(input.as_slice());
        proof {
            assert(0 <= self.choice * L && self.choice * L + L <= N * L) by (nonlinear_arith)
                requires
                    self.choice < N,
            ;
        }
        let start = self.choice * L;
        let block = vstd::slice::slice_subrange(ciphers, start, start + L);
        let plain = mask(block, digest.as_slice());
        proof {
            assert(input@ =~= key_bytes + encoding@ + self.point());
            assert(block@ == ciphers@.subrange(
                (self.choice() * L) as int,
                (self.choice() * L + L) as int,
            ));
            assert(receiver_key(self.secret(), self.sender_point()) == Some(key_bytes));
        }
        Some(to_array(plain.as_slice()))
    }
}

/// The run of a receiver: its choice, how far it has come, and, once it
/// has answered the sender, what it holds.
pub struct Reception<const N: usize> {
    choice: Choice<N>,
    issued: usize,
    receiver: Option<Receiver<N>>,
}

impl<const N: usize> Reception<N> {
    /// The receiver's choice.
    pub closed spec fn choice(&self) -> nat {
        self.choice.index()
    }

    /// How many steps of its run the receiver has made.
    pub closed spec fn issued(&self) -> nat {
        self.issued as nat
    }

    /// What the receiver holds, once it has answered the sender.
    pub closed spec fn receiver(&self) -> Option<Receiver<N>> {
        self.receiver
    }

    /// Whether the run holds, after its answer, a receiver for its choice,
    /// and none before.
    pub open spec fn well_formed(&self) -> bool {
        &&& self.issued() <= 4
        &&& match self.receiver() {
            Some(r) => self.issued() >= 2 && r.well_formed() && r.choice() == self.choice(),
            None => self.issued() <= 1,
        }
    }

    /// A run for the choice `choice`, with no step made.
    pub fn new(choice: Choice<N>) -> (r: Self)
        ensures
            r.well_formed(),
            r.choice() == choice.index(),
            r.issued() == 0,
            r.receiver().is_none(),
    {
        Reception { choice, issued: 0, receiver: None }
    }

    /// The next step of the receiver's run, given what was pulled since
    /// the last one. In answer to the sender's point a scalar is drawn by
    /// the operating system's generator, and the run holds from then on the
    /// receiver that `Receiver::answer` makes of it; the point is refused
    /// only where no receiver can be made of what was drawn. A step that is
    /// refused leaves the run where it was.
    pub fn step<const L: usize>(&mut self, pulled: Option<&[u8]>) -> (r: Step<[u8; L]>)
        requires
            old(self).well_formed(),
            L <= 64,
            N * L <= usize::MAX,
        ensures
            final(self).well_formed(),
            final(self).choice() == old(self).choice(),
            received(r) == receiver_step(
                old(self).issued(),
                bytes_of(pulled),
                final(self).receiver(),
                L as nat,
            ),
            final(self).issued() == if r is Refused {
                old(self).issued()
            } else {
                old(self).issued() + 1
            },
            !(old(self).issued() == 1 && pulled.is_some()) ==> final(self).receiver() == old(
                self,
            ).receiver(),
            old(self).issued() == 1 && pulled.is_some() ==> match final(self).receiver() {
                Some(receiver) => {
                    &&& receiver.sender_point() == bytes_of(pulled).unwrap()
                    &&& receiver.secret().len() == SCALAR_LEN
                    &&& receiver_point(
                        receiver.sender_point(),
                        receiver.secret(),
                        receiver.choice() as u64,
                    ) == Some(receiver.point())
                    &&& receiver.point().len() == POINT_LEN
                },
                None => exists|x: Seq<u8>|
                    x.len() == SCALAR_LEN && secp256k1_base_mul(x).is_some()
                        && (#[trigger] receiver_point(
                        bytes_of(pulled).unwrap(),
                        x,
                        old(self).choice() as u64,
                    )).is_none(),
            },
    {
        let step = match pulled {
            None => {
                if self.issued == 0 || self.issued == 2 {
                    Step::Pull
                } else {
                    Step::Refused
                }
            },
            Some(bytes) => {
                if self.issued == 1 {
                    match Receiver::new(bytes, &self.choice) {
                        Some(receiver) => {
                            let point = vstd::slice::slice_to_vec(receiver.reply());
                            self.receiver = Some(receiver);
                            Step::Push(point)
                        },
                        None => {
                            proof {
                                let c = self.choice.index() as u64;
                                let x = choose|x: Seq<u8>|
                                    x.len() == SCALAR_LEN && secp256k1_base_mul(x).is_some()
                                        && (#[trigger] receiver_point(bytes@, x, c)).is_none();
                                assert(receiver_point(bytes_of(pulled).unwrap(), x, c).is_none());
                                assert(exists|x: Seq<u8>|
                                    x.len() == SCALAR_LEN && secp256k1_base_mul(x).is_some()
                                        && (#[trigger] receiver_point(
                                        bytes_of(pulled).unwrap(),
                                        x,
                                        old(self).choice() as u64,
                                    )).is_none());
                            }
                            Step::Refused
                        },
                    }
                } else if self.issued == 3 {
                    let message = match &self.receiver {
                        Some(receiver) => receiver.decrypt::<L>(bytes),
                        None => None,
                    };
                    match message {
                        Some(m) => Step::Done(m),
                        None => Step::Refused,
                    }
                } else {
                    Step::Refused
                }
            },
        };
        match step {
            Step::Refused => {},
            _ => {
                self.issued = self.issued + 1;
            },
        }
        step
    }

    /// Overwrites the receiver's scalar with zeros, once the transfer is
    /// over.
    pub fn wipe(&mut self)
        requires
            old(self).well_formed(),
        ensures
            final(self).well_formed(),
            final(self).issued() == old(self).issued(),
            final(self).choice() == old(self).choice(),
            match (old(self).receiver(), final(self).receiver()) {
                (Some(before), Some(after)) => {
                    &&& after.secret() == Seq::new(before.secret().len(), |i: int| 0u8)
                    &&& after.point() == before.point()
                    &&& after.sender_point() == before.sender_point()
                },
                (None, None) => true,
                _ => false,
            },
    {
        match &mut self.receiver {
            Some(receiver) => receiver.wipe(),
            None => {},
        }
    }
}

} // verus!
