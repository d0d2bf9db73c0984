//! The sessions between parties: which peers are connected, and what the
//! handshake of a connection decides.
//!
//! A session of `N` peers holds one slot for each peer. A peer accepts
//! connections from the peers below it and connects to the peers above it.
//! The connecting peer presents its id as eight bytes, least significant
//! first; the accepting peer answers with one for a connection that it
//! takes and with zero for one that it refuses. The sockets themselves are
//! held by the caller, slot by slot.

use vstd::array::array_fill_for_copy_types;
use vstd::bytes::{
    lemma_auto_spec_u64_to_from_le_bytes, spec_u64_from_le_bytes, spec_u64_to_le_bytes,
    u64_from_le_bytes, u64_to_le_bytes,
};
use vstd::prelude::*;

verus! {

/// How many bytes a read takes at most.
pub const READ_LIMIT: usize = 1024;

/// The length of an id or an answer on the wire.
pub const ID_LEN: usize = 8;

/// Whether a peer with the id `me` takes a connection from a peer that
/// claims the id `claimed`, given which slots are taken: the id is below
/// its own and the slot is still empty.
pub open spec fn admits(me: nat, connected: Seq<bool>, claimed: nat) -> bool {
    claimed < me && claimed < connected.len() && !connected[claimed as int]
}

/// How many of the first `upto` slots are taken.
pub open spec fn taken(connected: Seq<bool>, upto: int) -> nat
    decreases upto,
{
    if upto <= 0 {
        0
    } else {
        taken(connected, upto - 1) + if connected[upto - 1] { 1nat } else { 0nat }
    }
}

/// The connection table of one peer among `N`.
pub struct Session<const N: usize> {
    me: usize,
    connected: [bool; N],
}

impl<const N: usize> Session<N> {
    /// The id of the peer that holds the table.
    pub closed spec fn id(&self) -> nat {
        self.me as nat
    }

    /// Which slots are taken.
    pub closed spec fn connected(&self) -> Seq<bool> {
        self.connected@
    }

    /// The slot of the peer's own id is always empty.
    #[verifier::type_invariant]
    spec fn own_slot_empty(self) -> bool {
        self.me < N && !self.connected@[self.me as int]
    }

    /// The empty table of the peer `me`, or `None` where `me` is no id
    /// among `N`.
    pub fn new(me: usize) -> (r: Option<Self>)
        ensures
            r.is_some() <==> me < N,
            r matches Some(s) ==> s.id() == me && s.connected() == Seq::new(
                N as nat,
                |i: int| false,
            ),
    {
        if me < N {
            let s = Session { me, connected: array_fill_for_copy_types(false) };
            proof {
                assert(s.connected@ =~= Seq::new(N as nat, |i: int| false));
            }
            Some(s)
        } else {
            None
        }
    }

    /// The id of the peer that holds the table, which is below `N`.
    pub fn me(&self) -> (r: usize)
        ensures
            r == self.id(),
            r < N,
            !self.connected()[r as int],
    {
        proof {
            use_type_invariant(self);
        }
        self.me
    }

    /// Whether the slot of `peer` is taken.
    pub fn is_connected(&self, peer: usize) -> (r: bool)
        ensures
            r == (peer < N && self.connected()[peer as int]),
    {
        peer < N && self.connected[peer]
    }

    /// How many connections from peers below are still to come.
    pub fn pending(&self) -> (r: usize)
        ensures
            r == self.id() - taken(self.connected(), self.id() as int),
    {
        proof {
            use_type_invariant(self);
        }
        let mut count: usize = 0;
        let mut i: usize = 0;
        while i < self.me
            invariant
                i <= self.me,
                self.me < N,
                count == i - taken(self.connected@, i as int),
                count <= i,
            decreases self.me - i,
        {
            if !self.connected[i] {
                count += 1;
            }
            i += 1;
        }
        count
    }

    /// Whether every other peer is connected.
    pub fn established(&self) -> (r: bool)
        ensures
            r == (forall|i: int| 0 <= i < N && i != self.id() ==> #[trigger] self.connected()[i]),
    {
        let mut i: usize = 0;
        while i < N
            invariant
                i <= N,
                forall|j: int| 0 <= j < i && j != self.me ==> #[trigger] self.connected@[j],
            decreases N - i,
        {
            if i != self.me && !self.connected[i] {
                assert(!self.connected()[i as int]);
                return false;
            }
            i += 1;
        }
        true
    }

    /// What the peer presents when it connects: its id.
    pub fn greeting(&self) -> (r: Vec<u8>)
        ensures
            r@ == spec_u64_to_le_bytes(self.id() as u64),
            r@.len() == ID_LEN,
    {
        u64_to_le_bytes(self.me as u64)
    }

    /// Decides on a connection that came in with the greeting `claimed`:
    /// returns the answer to send and, where the connection is taken, the
    /// slot to hold it in, which is then marked as taken.
    pub fn accept(&mut self, claimed: &[u8]) -> (r: (Vec<u8>, Option<usize>))
        requires
            claimed@.len() == ID_LEN,
        ensures
            final(self).id() == old(self).id(),
            ({
                let id = spec_u64_from_le_bytes(claimed@) as nat;
                if admits(old(self).id(), old(self).connected(), id) {
                    &&& r.0@ == spec_u64_to_le_bytes(1)
                    &&& r.1 == Some(id as usize)
                    &&& final(self).connected() == old(self).connected().update(id as int, true)
                } else {
                    &&& r.0@ == spec_u64_to_le_bytes(0)
                    &&& r.1.is_none()
                    &&& final(self).connected() == old(self).connected()
                }
            }),
    {
        proof {
            use_type_invariant(&*self);
        }
        let id = u64_from_le_bytes(claimed);
        if id < self.me as u64 && !self.connected[id as usize] {
            self.connected[id as usize] = true;
            (u64_to_le_bytes(1), Some(id as usize))
        } else {
            (u64_to_le_bytes(0), None)
        }
    }

    /// Takes note of the answer `reply` of the peer `peer` above, to which
    /// the peer has connected: the connection stands where the answer is
    /// not zero, and the slot is then marked as taken.
    pub fn acknowledged(&mut self, peer: usize, reply: &[u8]) -> (r: bool)
        requires
            reply@.len() == ID_LEN,
            old(self).id() < peer < N,
        ensures
            final(self).id() == old(self).id(),
            r == (spec_u64_from_le_bytes(reply@) != 0),
            final(self).connected() == if r {
                old(self).connected().update(peer as int, true)
            } else {
                old(self).connected()
            },
    {
        proof {
            use_type_invariant(&*self);
        }
        if u64_from_le_bytes(reply) != 0 {
            self.connected[peer] = true;
            true
        } else {
            false
        }
    }

    /// The other party of a session of two.
    pub fn other(&self) -> (r: usize)
        requires
            N == 2,
        ensures
            r == 1 - self.id(),
            r < N,
            r != self.id(),
    {
        proof {
            use_type_invariant(self);
        }
        1 - self.me
    }
}

/// A greeting is answered by the id that it presents: a peer below, whose
/// slot is still empty, is taken by its greeting.
pub proof fn law_greeting_admitted(me: nat, connected: Seq<bool>, peer: u64)
    requires
        peer < me,
        me <= connected.len(),
        !connected[peer as int],
    ensures
        admits(me, connected, spec_u64_from_le_bytes(spec_u64_to_le_bytes(peer)) as nat),
{
    lemma_auto_spec_u64_to_from_le_bytes();
}

} // verus!
