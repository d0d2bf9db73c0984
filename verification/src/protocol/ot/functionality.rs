//! The reference functionality of oblivious transfer: a trusted third
//! party hands the receiver the message of its choice. It hides nothing
//! from that party and serves as an oracle for tests only.

use crate::protocol::ot::{to_array, Choice};
use vstd::bytes::{
    lemma_auto_spec_u64_to_from_le_bytes, spec_u64_from_le_bytes, spec_u64_to_le_bytes,
    u64_from_le_bytes, u64_to_le_bytes,
};
use vstd::prelude::*;

verus! {

/// The messages one after the other.
pub open spec fn joined<const L: usize>(messages: Seq<[u8; L]>) -> Seq<u8>
    decreases messages.len(),
{
    if messages.len() == 0 {
        Seq::empty()
    } else {
        joined(messages.drop_last()) + messages.last()@
    }
}

/// What the trusted party hands on: block `choice` of `l` bytes of
/// `message`, where `choice` is an index of eight bytes, least significant
/// first, and `message` reaches that far.
pub open spec fn selected(message: Seq<u8>, choice: Seq<u8>, l: nat) -> Option<Seq<u8>> {
    let c = spec_u64_from_le_bytes(choice) as nat;
    if choice.len() == 8 && (c + 1) * l <= message.len() {
        Some(message.subrange((c * l) as int, (c * l + l) as int))
    } else {
        None
    }
}

/// The trusted third party.
pub struct Trust;

/// The sender.
pub struct Sender;

/// The receiver.
pub struct Receiver;

impl Trust {
    /// The message to hand to the receiver, from the sender's `message`
    /// and the receiver's `choice`; or `None` where `choice` is no index
    /// or `message` does not reach that far.
    pub fn run<const N: usize, const L: usize>(message: &[u8], choice: &[u8]) -> (r: Option<
        Vec<u8>,
    >)
        ensures
            match r {
                Some(m) => selected(message@, choice@, L as nat) == Some(m@),
                None => selected(message@, choice@, L as nat).is_none(),
            },
    {
        if choice.len() != 8 {
            return None;
        }
        let c = u64_from_le_bytes(choice);
        let len = message.len();
        if L == 0 {
            proof {
                assert((c + 1) * 0 == 0 && c * 0 == 0) by (nonlinear_arith);
            }
            let empty = vstd::slice::slice_subrange(message, 0, 0);
            return Some(vstd::slice::slice_to_vec(empty));
        }
        if c >= len as u64 {
            proof {
                assert((c + 1) * L > len) by (nonlinear_arith)
                    requires
                        c >= len,
                        L >= 1,
                ;
            }
            return None;
        }
        proof {
            assert((c + 1) * L <= 0xffff_ffff_ffff_ffff * 0xffff_ffff_ffff_ffff) by (nonlinear_arith)
                requires
                    0 <= c + 1 <= 0xffff_ffff_ffff_ffff,
                    0 <= L <= 0xffff_ffff_ffff_ffff,
            ;
            assert(c * L + L == (c + 1) * L) by (nonlinear_arith);
            assert(0 <= c * L) by (nonlinear_arith);
        }
        let end: u128 = (c as u128 + 1) * (L as u128);
        if end > len as u128 {
            return None;
        }
        let end = end as usize;
        let block = vstd::slice::slice_subrange(message, end - L, end);
        Some(vstd::slice::slice_to_vec(block))
    }
}

impl Sender {
    /// The sender's message to the trusted party: all messages, one after
    /// the other.
    pub fn message<const N: usize, const L: usize>(messages: &[[u8; L]; N]) -> (r: Vec<u8>)
        ensures
            r@ == joined(messages@),
    {
        let mut out: Vec<u8> = Vec::new();
        let mut i: usize = 0;
        while i < N
            invariant
                i <= N,
                out@ == joined(messages@.take(i as int)),
            decreases N - i,
        {
            proof {
                assert(messages@.take(i + 1).drop_last() =~= messages@.take(i as int));
            }
            let message = &messages[i];
            out.extend_from_slice(message.as_slice());
            i += 1;
        }
        proof {
            assert(messages@.take(N as int) =~= messages@);
        }
        out
    }
}

impl Receiver {
    /// The receiver's message to the trusted party: its choice as eight
    /// bytes, least significant first.
    pub fn request<const N: usize>(choice: &Choice<N>) -> (r: Vec<u8>)
        ensures
            r@ == spec_u64_to_le_bytes(choice.index() as u64),
    {
        u64_to_le_bytes(choice.get() as u64)
    }

    /// The message that the trusted party handed on, which has `L` bytes.
    pub fn accept<const L: usize>(reply: &[u8]) -> (r: Option<[u8; L]>)
        ensures
            r.is_some() <==> reply@.len() == L,
            r matches Some(m) ==> m@ == reply@,
    {
        if reply.len() == L {
            Some(to_array(reply))
        } else {
            None
        }
    }
}

/// The messages joined hold one block of `L` bytes for each message, and
/// block `c` is message `c`.
pub proof fn lemma_joined_block<const L: usize>(messages: Seq<[u8; L]>, c: int)
    requires
        0 <= c < messages.len(),
    ensures
        joined(messages).len() == messages.len() * L,
        joined(messages).subrange(c * L, c * L + L) == messages[c]@,
    decreases messages.len(),
{
    let n = messages.len() as int;
    let before = joined(messages.drop_last());
    lemma_joined_len(messages.drop_last());
    assert((n - 1) * L + L == n * L) by (nonlinear_arith);
    if c == n - 1 {
        assert(joined(messages).subrange(c * L, c * L + L) =~= messages[c]@);
    } else {
        lemma_joined_block(messages.drop_last(), c);
        assert(c * L + L <= (n - 1) * L) by (nonlinear_arith)
            requires
                c < n - 1,
        ;
        assert(joined(messages).subrange(c * L, c * L + L) =~= before.subrange(
            c * L,
            c * L + L,
        ));
    }
}

/// The length of the messages joined.
pub proof fn lemma_joined_len<const L: usize>(messages: Seq<[u8; L]>)
    ensures
        joined(messages).len() == messages.len() * L,
    decreases messages.len(),
{
    let n = messages.len() as int;
    if n > 0 {
        lemma_joined_len(messages.drop_last());
        assert((n - 1) * L + L == n * L) by (nonlinear_arith);
    } else {
        assert(0 * L == 0);
    }
}

/// Through the trusted party the receiver gets the message of its choice.
pub proof fn law_round_trip<const L: usize>(messages: Seq<[u8; L]>, c: u64)
    requires
        c < messages.len(),
    ensures
        selected(joined(messages), spec_u64_to_le_bytes(c), L as nat) == Some(messages[c as int]@),
{
    lemma_auto_spec_u64_to_from_le_bytes();
    lemma_joined_block(messages, c as int);
    let n = messages.len() as int;
    assert((c + 1) * L <= n * L) by (nonlinear_arith)
        requires
            c + 1 <= n,
    ;
    assert(c * L + L == (c + 1) * L) by (nonlinear_arith);
}

} // verus!
