//! Oblivious transfer: one message out of `N`, each `L` bytes long.

use crate::protocol::error::Result;
use vstd::prelude::*;

pub mod co15;
pub mod curve;
pub mod functionality;
pub mod np01;

verus! {

/// An index into the sender's `N` messages.
#[derive(Debug, Clone, Copy, PartialEq, Eq, Hash)]
pub struct Choice<const N: usize>(usize);

impl<const N: usize> Choice<N> {
    #[verifier::type_invariant]
    spec fn in_range(self) -> bool {
        self.0 < N
    }

    /// The chosen index.
    pub closed spec fn index(self) -> nat {
        self.0 as nat
    }

    /// Accepts `choice` exactly when it names one of the `N` messages.
    pub fn new(choice: usize) -> (r: Option<Self>)
        ensures
            r.is_some() <==> choice < N,
            r matches Some(c) ==> c.index() == choice,
    {
        if choice < N {
            Some(Self(choice))
        } else {
            None
        }
    }

    /// The chosen index, always below `N`.
    pub fn get(&self) -> (r: usize)
        ensures
            r == self.index(),
            r < N,
    {
        proof {
            use_type_invariant(self);
        }
        self.0
    }
}

/// The sending side of a 1-out-of-`N` oblivious transfer of messages of
/// `L` bytes.
pub trait OTSend<const N: usize, const L: usize> {
    /// Transmits the messages so that the receiver learns one of them.
    fn send(&self, messages: &[[u8; L]; N]) -> Result<()>;
}

/// The receiving side of a 1-out-of-`N` oblivious transfer of messages of
/// `L` bytes.
pub trait OTReceive<const N: usize, const L: usize> {
    /// Receives the chosen message.
    fn receive(&self, choice: &Choice<N>) -> Result<[u8; L]>;
}

/// What a party of a transfer does next on its session with the peer.
/// The party is asked for one step after another: first with nothing in
/// hand, then with nothing after each message that was pushed, and with
/// the peer's message after each that was pulled.
#[derive(Debug)]
pub enum Step<T> {
    /// Send these bytes to the peer.
    Push(Vec<u8>),
    /// Await the next message of the peer.
    Pull,
    /// The transfer is over, with this outcome.
    Done(T),
    /// What was handed in is not what is due, or the peer's message is
    /// none of the protocol: nothing is done.
    Refused,
}

/// A step as the contracts speak of it, with the bytes of its outcome.
pub enum Action {
    Push(Seq<u8>),
    Pull,
    Done(Seq<u8>),
    Refused,
}

/// A sender's step: its outcome holds no bytes.
pub open spec fn sent(step: Step<()>) -> Action {
    match step {
        Step::Push(bytes) => Action::Push(bytes@),
        Step::Pull => Action::Pull,
        Step::Done(_) => Action::Done(Seq::empty()),
        Step::Refused => Action::Refused,
    }
}

/// A receiver's step: its outcome is the message received.
pub open spec fn received<const L: usize>(step: Step<[u8; L]>) -> Action {
    match step {
        Step::Push(bytes) => Action::Push(bytes@),
        Step::Pull => Action::Pull,
        Step::Done(message) => Action::Done(message@),
        Step::Refused => Action::Refused,
    }
}

/// The bytes that were pulled, where any were.
pub open spec fn bytes_of(pulled: Option<&[u8]>) -> Option<Seq<u8>> {
    match pulled {
        Some(bytes) => Some(bytes@),
        None => None,
    }
}

/// A message under a pad: each byte of `msg` combined by exclusive or with
/// the byte of `pad` at its place, as far as both reach.
pub open spec fn masked(msg: Seq<u8>, pad: Seq<u8>) -> Seq<u8> {
    Seq::new(if msg.len() <= pad.len() { msg.len() } else { pad.len() }, |i: int| msg[i] ^ pad[i])
}

/// Puts `msg` under the pad `hash`, or takes the pad off again.
pub fn mask(msg: &[u8], hash: &[u8]) -> (r: Vec<u8>)
    ensures
        r@ == masked(msg@, hash@),
{
    let n = if msg.len() <= hash.len() { msg.len() } else { hash.len() };
    let mut out: Vec<u8> = Vec::with_capacity(n);
    let mut i: usize = 0;
    while i < n
        invariant
            i <= n,
            n <= msg@.len(),
            n <= hash@.len(),
            out@ == Seq::new(i as nat, |k: int| msg@[k] ^ hash@[k]),
        decreases n - i,
    {
        out.push(msg[i] ^ hash[i]);
        proof {
            assert(out@ =~= Seq::new((i + 1) as nat, |k: int| msg@[k] ^ hash@[k]));
        }
        i += 1;
    }
    out
}

/// A pad that is long enough comes off as it went on: masking twice with
/// one pad gives back the message.
pub proof fn law_mask_twice(msg: Seq<u8>, pad: Seq<u8>)
    requires
        msg.len() <= pad.len(),
    ensures
        masked(masked(msg, pad), pad) == msg,
{
    assert forall|i: int| 0 <= i < msg.len() implies (msg[i] ^ pad[i]) ^ pad[i] == msg[i] by {
        let m = msg[i];
        let p = pad[i];
        assert((m ^ p) ^ p == m) by (bit_vector);
    }
    assert(masked(masked(msg, pad), pad) =~= msg);
}

/// The messages in order, message `i` under the pad `pads(i)`; or `None`
/// where one of the pads is missing.
pub open spec fn padded<const L: usize>(
    messages: Seq<[u8; L]>,
    pads: spec_fn(int) -> Option<Seq<u8>>,
) -> Option<Seq<u8>>
    decreases messages.len(),
{
    if messages.len() == 0 {
        Some(Seq::empty())
    } else {
        match (padded(messages.drop_last(), pads), pads(messages.len() - 1)) {
            (Some(before), Some(pad)) => Some(before + masked(messages.last()@, pad)),
            _ => None,
        }
    }
}

/// Block `c` of `n` blocks of `l` bytes with the pad taken off; or `None`
/// where `ciphers` has not that length or the pad is missing.
pub open spec fn unpadded(ciphers: Seq<u8>, c: nat, n: nat, l: nat, pad: Option<Seq<u8>>) -> Option<
    Seq<u8>,
> {
    match pad {
        Some(p) => if ciphers.len() == n * l {
            Some(masked(ciphers.subrange((c * l) as int, (c * l + l) as int), p))
        } else {
            None
        },
        None => None,
    }
}

/// Whether every pad that is there covers a message of `l` bytes.
pub open spec fn pads_cover(pads: spec_fn(int) -> Option<Seq<u8>>, l: nat) -> bool {
    forall|i: int| (#[trigger] pads(i)) matches Some(p) ==> p.len() >= l
}

/// Once a pad is missing for some of the messages, it is missing for more
/// of them.
pub proof fn lemma_padded_fail<const L: usize>(
    messages: Seq<[u8; L]>,
    pads: spec_fn(int) -> Option<Seq<u8>>,
    i: int,
)
    requires
        0 <= i <= messages.len(),
        padded(messages.take(i), pads).is_none(),
    ensures
        padded(messages, pads).is_none(),
    decreases messages.len(),
{
    if i < messages.len() {
        assert(messages.drop_last().take(i) =~= messages.take(i));
        lemma_padded_fail(messages.drop_last(), pads, i);
    } else {
        assert(messages.take(i) =~= messages);
    }
}

/// The padded messages hold one block of `L` bytes for each message, and
/// block `c` is message `c` under its pad.
pub proof fn lemma_padded_block<const L: usize>(
    messages: Seq<[u8; L]>,
    pads: spec_fn(int) -> Option<Seq<u8>>,
    c: int,
)
    requires
        0 <= c < messages.len(),
        padded(messages, pads).is_some(),
        pads_cover(pads, L as nat),
    ensures
        pads(c).is_some(),
        padded(messages, pads).unwrap().len() == messages.len() * L,
        padded(messages, pads).unwrap().subrange(c * L, c * L + L) == masked(
            messages[c]@,
            pads(c).unwrap(),
        ),
    decreases messages.len(),
{
    let n = messages.len() as int;
    let before = padded(messages.drop_last(), pads).unwrap();
    let block = masked(messages.last()@, pads(n - 1).unwrap());
    let all = padded(messages, pads).unwrap();
    assert(all == before + block);
    assert(block.len() == L);
    lemma_padded_len(messages.drop_last(), pads);
    assert((n - 1) * L + L == n * L) by (nonlinear_arith);
    if c == n - 1 {
        assert(all.subrange(c * L, c * L + L) =~= block);
    } else {
        lemma_padded_block(messages.drop_last(), pads, c);
        assert(c * L + L <= (n - 1) * L) by (nonlinear_arith)
            requires
                c < n - 1,
        ;
        assert(all.subrange(c * L, c * L + L) =~= before.subrange(c * L, c * L + L));
    }
}

/// The length of the padded messages.
pub proof fn lemma_padded_len<const L: usize>(
    messages: Seq<[u8; L]>,
    pads: spec_fn(int) -> Option<Seq<u8>>,
)
    requires
        padded(messages, pads).is_some(),
        pads_cover(pads, L as nat),
    ensures
        padded(messages, pads).unwrap().len() == messages.len() * L,
    decreases messages.len(),
{
    let n = messages.len() as int;
    if n > 0 {
        lemma_padded_len(messages.drop_last(), pads);
        assert(masked(messages.last()@, pads(n - 1).unwrap()).len() == L);
        assert((n - 1) * L + L == n * L) by (nonlinear_arith);
    } else {
        assert(0 * L == 0);
    }
}

/// Taking off the pad of message `c` gives back message `c`.
pub proof fn law_padded_round_trip<const L: usize>(
    messages: Seq<[u8; L]>,
    pads: spec_fn(int) -> Option<Seq<u8>>,
    c: nat,
)
    requires
        c < messages.len(),
        padded(messages, pads).is_some(),
        pads_cover(pads, L as nat),
    ensures
        unpadded(padded(messages, pads).unwrap(), c, messages.len(), L as nat, pads(c as int))
            == Some(messages[c as int]@),
{
    lemma_padded_block(messages, pads, c as int);
    law_mask_twice(messages[c as int]@, pads(c as int).unwrap());
}

/// The messages can be padded exactly where a pad is there for each.
pub proof fn lemma_padded_some<const L: usize>(
    messages: Seq<[u8; L]>,
    pads: spec_fn(int) -> Option<Seq<u8>>,
)
    ensures
        padded(messages, pads).is_some() <==> forall|i: int|
            0 <= i < messages.len() ==> (#[trigger] pads(i)).is_some(),
    decreases messages.len(),
{
    if messages.len() > 0 {
        lemma_padded_some(messages.drop_last(), pads);
        if padded(messages, pads).is_some() {
            assert forall|i: int| 0 <= i < messages.len() implies (#[trigger] pads(i)).is_some() by {
                if i < messages.len() - 1 {
                    assert(0 <= i < messages.drop_last().len());
                }
            }
        }
    }
}

/// A block of the padded messages depends on the messages through its own
/// message alone: where two lists of as many messages agree in message
/// `i`, they agree in block `i` under the same pads, and one can be padded
/// where the other can.
pub proof fn law_block_of_its_message<const L: usize>(
    messages: Seq<[u8; L]>,
    others: Seq<[u8; L]>,
    pads: spec_fn(int) -> Option<Seq<u8>>,
    i: int,
)
    requires
        messages.len() == others.len(),
        0 <= i < messages.len(),
        messages[i]@ == others[i]@,
        padded(messages, pads).is_some(),
        pads_cover(pads, L as nat),
    ensures
        padded(others, pads).is_some(),
        padded(messages, pads).unwrap().len() == padded(others, pads).unwrap().len(),
        padded(messages, pads).unwrap().subrange(i * L, i * L + L) == padded(
            others,
            pads,
        ).unwrap().subrange(i * L, i * L + L),
{
    lemma_padded_some(messages, pads);
    lemma_padded_some(others, pads);
    lemma_padded_block(messages, pads, i);
    lemma_padded_block(others, pads, i);
}

/// What is read out of the padded messages depends on them through the
/// block of the choice alone: two lists of bytes of one length that agree
/// in block `c` give the same.
pub proof fn law_reads_its_block(
    ciphers: Seq<u8>,
    others: Seq<u8>,
    c: nat,
    n: nat,
    l: nat,
    pad: Option<Seq<u8>>,
)
    requires
        ciphers.len() == others.len(),
        ciphers.subrange((c * l) as int, (c * l + l) as int) == others.subrange(
            (c * l) as int,
            (c * l + l) as int,
        ),
    ensures
        unpadded(ciphers, c, n, l, pad) == unpadded(others, c, n, l, pad),
{
}

/// Overwrites secret bytes with zeros.
pub fn wipe(bytes: &mut Vec<u8>)
    ensures
        final(bytes)@ == Seq::new(old(bytes)@.len(), |i: int| 0u8),
{
    let n = bytes.len();
    let mut i: usize = 0;
    while i < n
        invariant
            i <= n,
            bytes@.len() == n,
            forall|k: int| 0 <= k < i ==> bytes@[k] == 0u8,
        decreases n - i,
    {
        bytes[i] = 0u8;
        i += 1;
    }
    assert(bytes@ =~= Seq::new(n as nat, |i: int| 0u8));
}

/// Copies `L` bytes into an array.
pub fn to_array<const L: usize>(bytes: &[u8]) -> (r: [u8; L])
    requires
        bytes@.len() == L,
    ensures
        r@ == bytes@,
{
    let mut result: [u8; L] = vstd::array::array_fill_for_copy_types(0u8);
    let mut i: usize = 0;
    while i < L
        invariant
            i <= L,
            bytes@.len() == L,
            forall|k: int| 0 <= k < i ==> result@[k] == bytes@[k],
        decreases L - i,
    {
        result[i] = bytes[i];
        i += 1;
    }
    assert(result@ =~= bytes@);
    result
}

} // verus!
