//! The demultiplexing endpoint shared by the connections of one local
//! socket: inbound datagrams are hash-verified, parsed, and bucketed by the
//! connection id they carry. Ids must be admitted before their packets are
//! retained; handshake requests (connection id 0) go to their own inbox, and
//! everything else is dropped.

use vstd::prelude::*;

use crate::packet::FLAG_REQUEST_CONNECTION;
use crate::packet::HASH_SIZE;
use crate::packet::HEADER_SIZE;
use crate::packet::PacketHeader;
use crate::packet::parse_datagram;
use crate::packet::spec_datagram_payload;
use crate::packet::spec_datagram_well_formed;
use crate::packet::spec_read_header;

use crate::ConnectionId;

verus! {

/// One verified inbound packet: its parsed header and its payload bytes.
#[derive(Debug)]
pub struct Packet {
    /// The parsed packet header.
    pub header: PacketHeader,
    /// The payload the datagram carried.
    pub payload: Vec<u8>,
}

/// Where routing one datagram ended up.
#[derive(Clone, Copy, Debug, PartialEq, Eq, Structural)]
pub enum RouteOutcome {
    /// Appended to the admitted bucket of this connection id.
    Delivered(u32),
    /// A connection request on id 0: appended to the handshake inbox.
    Handshake,
    /// Valid but addressed to an id that is not admitted: dropped.
    Dropped,
    /// Wrong size, failing hash, or impossible payload length: dropped.
    Malformed,
}

/// The bucket stored under `id`, walking the table front to back.
pub open spec fn spec_lookup(table: Seq<(u32, Vec<Packet>)>, id: u32) -> Option<Seq<Packet>>
    decreases table.len(),
{
    if table.len() == 0 {
        None
    } else if table[0].0 == id {
        Some(table[0].1@)
    } else {
        spec_lookup(table.skip(1), id)
    }
}

/// Looking up after appending a fresh entry: the new id resolves to the new
/// bucket when it was absent; every other id resolves as before.
proof fn lemma_lookup_push(table: Seq<(u32, Vec<Packet>)>, entry: (u32, Vec<Packet>), q: u32)
    ensures
        spec_lookup(table.push(entry), q) == if spec_lookup(table, q) is Some {
            spec_lookup(table, q)
        } else if entry.0 == q {
            Some(entry.1@)
        } else {
            None
        },
    decreases table.len(),
{
    if table.len() == 0 {
        assert(table.push(entry)[0] == entry);
        assert(table.push(entry).skip(1) =~= Seq::<(u32, Vec<Packet>)>::empty());
        assert(spec_lookup(table.push(entry).skip(1), q) is None);
        assert(spec_lookup(table, q) is None);
    } else {
        assert(table.push(entry)[0] == table[0]);
        assert(table.push(entry).skip(1) =~= table.skip(1).push(entry));
        lemma_lookup_push(table.skip(1), entry, q);
    }
}

/// Looking up after removing position `i`: with unique ids the removed id is
/// gone and every other id resolves as before.
proof fn lemma_lookup_remove(table: Seq<(u32, Vec<Packet>)>, i: int, q: u32)
    requires
        0 <= i < table.len(),
        forall|a: int, b: int|
            0 <= a < b < table.len() ==> (#[trigger] table[a]).0 != (#[trigger] table[b]).0,
    ensures
        table[i].0 == q ==> spec_lookup(table.remove(i), q) is None,
        table[i].0 != q ==> spec_lookup(table.remove(i), q) == spec_lookup(table, q),
    decreases table.len(),
{
    if i == 0 {
        assert(table.remove(0) =~= table.skip(1));
        if table[0].0 == q {
            lemma_lookup_absent(table.skip(1), q);
        }
    } else {
        assert(table.remove(i)[0] == table[0]);
        assert(table.remove(i).skip(1) =~= table.skip(1).remove(i - 1));
        if table[0].0 != q {
            lemma_lookup_remove(table.skip(1), i - 1, q);
        }
    }
}

/// An id that no entry carries resolves to nothing.
proof fn lemma_lookup_absent(table: Seq<(u32, Vec<Packet>)>, q: u32)
    requires
        forall|a: int| 0 <= a < table.len() ==> (#[trigger] table[a]).0 != q,
    ensures
        spec_lookup(table, q) is None,
    decreases table.len(),
{
    if table.len() > 0 {
        lemma_lookup_absent(table.skip(1), q);
    }
}

/// Looking up after replacing position `i` with an entry under the same id:
/// that id resolves to the new bucket; with unique ids every other id
/// resolves as before.
proof fn lemma_lookup_update(
    table: Seq<(u32, Vec<Packet>)>,
    i: int,
    entry: (u32, Vec<Packet>),
    q: u32,
)
    requires
        0 <= i < table.len(),
        entry.0 == table[i].0,
        forall|a: int, b: int|
            0 <= a < b < table.len() ==> (#[trigger] table[a]).0 != (#[trigger] table[b]).0,
        forall|a: int| 0 <= a < i ==> (#[trigger] table[a]).0 != entry.0,
    ensures
        table[i].0 == q ==> spec_lookup(table.update(i, entry), q) == Some(entry.1@),
        table[i].0 != q ==> spec_lookup(table.update(i, entry), q) == spec_lookup(table, q),
    decreases table.len(),
{
    if i == 0 {
        assert(table.update(0, entry)[0] == entry);
        assert(table.update(0, entry).skip(1) =~= table.skip(1));
    } else {
        assert(table.update(i, entry)[0] == table[0]);
        assert(table.update(i, entry).skip(1) =~= table.skip(1).update(i - 1, entry));
        lemma_lookup_update(table.skip(1), i - 1, entry, q);
    }
}

/// The per-socket demultiplexer: an admission table of buckets keyed by
/// connection id, a handshake inbox, and the parameters every datagram is
/// checked against.
#[derive(Debug)]
pub struct Endpoint {
    /// Admitted connection ids with their queued packets, in admission order.
    pub buckets: Vec<(u32, Vec<Packet>)>,
    /// Verified connection requests awaiting a responder.
    pub handshake_inbox: Vec<Packet>,
    /// Key the packet integrity hash is seeded with.
    pub hash_key: u64,
    /// Exact size of every datagram on the wire.
    pub max_datagram_length: usize,
}

impl Endpoint {
    /// Admitted ids are unique and the datagram size leaves room for header
    /// and hash.
    pub open spec fn spec_wf(self) -> bool {
        &&& HEADER_SIZE + HASH_SIZE <= self.max_datagram_length
        &&& forall|a: int, b: int|
            0 <= a < b < self.buckets@.len() ==> (#[trigger] self.buckets@[a]).0 != (
            #[trigger] self.buckets@[b]).0
    }

    /// Whether packets for `id` are retained.
    pub open spec fn spec_has_bucket(self, id: u32) -> bool {
        spec_lookup(self.buckets@, id) is Some
    }

    /// The packets queued for `id`.
    pub open spec fn spec_bucket(self, id: u32) -> Seq<Packet> {
        spec_lookup(self.buckets@, id).unwrap()
    }

    /// An endpoint with no admitted ids and an empty handshake inbox.
    pub fn new(hash_key: u64, max_datagram_length: usize) -> (e: Endpoint)
        requires
            HEADER_SIZE + HASH_SIZE <= max_datagram_length,
        ensures
            e.spec_wf(),
            e.buckets@.len() == 0,
            e.handshake_inbox@.len() == 0,
            e.hash_key == hash_key,
            e.max_datagram_length == max_datagram_length,
            forall|id: u32| !e.spec_has_bucket(id),
    {
        let e = Endpoint {
            buckets: Vec::new(),
            handshake_inbox: Vec::new(),
            hash_key,
            max_datagram_length,
        };
        e
    }

    /// Position of the bucket admitted for `id`, if any.
    fn find_bucket(&self, id: ConnectionId) -> (r: Option<usize>)
        ensures
            match r {
                Some(i) => {
                    &&& i < self.buckets@.len()
                    &&& self.buckets@[i as int].0 == id
                    &&& forall|a: int| 0 <= a < i ==> (#[trigger] self.buckets@[a]).0 != id
                    &&& spec_lookup(self.buckets@, id) == Some(self.buckets@[i as int].1@)
                },
                None => spec_lookup(self.buckets@, id) is None,
            },
    {
        let n = self.buckets.len();
        let mut k: usize = 0;
        proof {
            assert(self.buckets@.skip(0) =~= self.buckets@);
        }
        while k < n
            invariant
                0 <= k <= n,
                n == self.buckets@.len(),
                forall|a: int| 0 <= a < k ==> (#[trigger] self.buckets@[a]).0 != id,
                spec_lookup(self.buckets@, id) == spec_lookup(self.buckets@.skip(k as int), id),
            decreases n - k,
        {
            proof {
                assert(self.buckets@.skip(k as int)[0] == self.buckets@[k as int]);
                assert(self.buckets@.skip(k as int).skip(1) =~= self.buckets@.skip(k as int + 1));
            }
            if self.buckets[k].0 == id {
                return Some(k);
            }
            k = k + 1;
        }
        proof {
            assert(self.buckets@.skip(n as int) =~= Seq::<(u32, Vec<Packet>)>::empty());
        }
        None
    }

    /// Admit `id`: create an empty bucket for it unless one exists.
    /// Idempotent; needed before packets for `id` are retained.
    pub fn allow_connection_id(&mut self, id: ConnectionId)
        ensures
            old(self).spec_wf() ==> {
                &&& final(self).spec_wf()
                &&& final(self).spec_has_bucket(id)
                &&& (old(self).spec_has_bucket(id) ==> *final(self) == *old(self))
                &&& (!old(self).spec_has_bucket(id) ==> final(self).spec_bucket(id) =~= Seq::<
                    Packet,
                >::empty())
                &&& forall|q: u32|
                    q != id ==> #[trigger] spec_lookup(final(self).buckets@, q) == spec_lookup(
                        old(self).buckets@,
                        q,
                    )
                &&& final(self).handshake_inbox@ == old(self).handshake_inbox@
                &&& final(self).hash_key == old(self).hash_key
                &&& final(self).max_datagram_length == old(self).max_datagram_length
            },
    {
        match self.find_bucket(id) {
            Some(_) => (),
            None => {
                let fresh: Vec<Packet> = Vec::new();
                let ghost pre = self.buckets@;
                self.buckets.push((id, fresh));
                proof {
                    if old(self).spec_wf() {
                        assert forall|q: u32| true implies #[trigger] spec_lookup(
                            self.buckets@,
                            q,
                        ) == (if spec_lookup(pre, q) is Some {
                            spec_lookup(pre, q)
                        } else if q == id {
                            Some(Seq::<Packet>::empty())
                        } else {
                            None
                        }) by {
                            lemma_lookup_push(pre, (id, fresh), q);
                            assert(fresh@ =~= Seq::<Packet>::empty());
                        }
                        assert forall|a: int, b: int|
                            0 <= a < b < self.buckets@.len() implies (
                        #[trigger] self.buckets@[a]).0 != (#[trigger] self.buckets@[b]).0 by {
                            if b == self.buckets@.len() - 1 {
                                if self.buckets@[a].0 == id {
                                    lemma_lookup_found(pre, a, id);
                                }
                            }
                        }
                    }
                }
            },
        }
    }

    /// Block `id`: drop its bucket and everything queued in it. Later
    /// packets for `id` are dropped rather than retained.
    pub fn block_connection_id(&mut self, id: ConnectionId)
        ensures
            old(self).spec_wf() ==> {
                &&& final(self).spec_wf()
                &&& !final(self).spec_has_bucket(id)
                &&& forall|q: u32|
                    q != id ==> #[trigger] spec_lookup(final(self).buckets@, q) == spec_lookup(
                        old(self).buckets@,
                        q,
                    )
                &&& final(self).handshake_inbox@ == old(self).handshake_inbox@
                &&& final(self).hash_key == old(self).hash_key
                &&& final(self).max_datagram_length == old(self).max_datagram_length
            },
    {
        match self.find_bucket(id) {
            Some(i) => {
                let ghost pre = self.buckets@;
                self.buckets.remove(i);
                proof {
                    if old(self).spec_wf() {
                        assert forall|q: u32| true implies #[trigger] spec_lookup(
                            self.buckets@,
                            q,
                        ) == (if q == id {
                            None
                        } else {
                            spec_lookup(pre, q)
                        }) by {
                            lemma_lookup_remove(pre, i as int, q);
                        }
                    }
                }
            },
            None => (),
        }
    }

    /// Swap out everything queued for `id`; the bucket stays admitted and
    /// empty. An id that is not admitted yields nothing.
    pub fn take(&mut self, id: ConnectionId) -> (r: Vec<Packet>)
        requires
            old(self).spec_wf(),
        ensures
            final(self).spec_wf(),
            final(self).handshake_inbox@ == old(self).handshake_inbox@,
            final(self).hash_key == old(self).hash_key,
            final(self).max_datagram_length == old(self).max_datagram_length,
            old(self).spec_has_bucket(id) ==> {
                &&& r@ == old(self).spec_bucket(id)
                &&& final(self).spec_has_bucket(id)
                &&& final(self).spec_bucket(id) =~= Seq::<Packet>::empty()
            },
            !old(self).spec_has_bucket(id) ==> r@ =~= Seq::<Packet>::empty() && *final(self)
                == *old(self),
            forall|q: u32|
                q != id ==> #[trigger] spec_lookup(final(self).buckets@, q) == spec_lookup(
                    old(self).buckets@,
                    q,
                ),
    {
        match self.find_bucket(id) {
            Some(i) => {
                let ghost pre = self.buckets@;
                let (key_id, packets) = self.buckets.remove(i);
                let fresh: Vec<Packet> = Vec::new();
                self.buckets.insert(i, (key_id, fresh));
                proof {
                    assert(self.buckets@ =~= pre.update(i as int, (key_id, fresh)));
                    assert forall|q: u32| true implies #[trigger] spec_lookup(self.buckets@, q)
                        == (if q == id {
                        Some(fresh@)
                    } else {
                        spec_lookup(pre, q)
                    }) by {
                        lemma_lookup_update(pre, i as int, (key_id, fresh), q);
                    }
                    assert(fresh@ =~= Seq::<Packet>::empty());
                }
                packets
            },
            None => Vec::new(),
        }
    }

    /// Where routing a datagram sends it, given the endpoint's current
    /// admission table.
    pub open spec fn spec_route_outcome(self, bytes: Seq<u8>) -> RouteOutcome {
        if !spec_datagram_well_formed(self.hash_key, self.max_datagram_length as int, bytes) {
            RouteOutcome::Malformed
        } else {
            let h = spec_read_header(bytes);
            if spec_lookup(self.buckets@, h.connection_id) is Some {
                RouteOutcome::Delivered(h.connection_id)
            } else if h.connection_id == 0 && h.flags & FLAG_REQUEST_CONNECTION != 0 {
                RouteOutcome::Handshake
            } else {
                RouteOutcome::Dropped
            }
        }
    }

    /// Route one inbound datagram: verify the hash and structure, then
    /// append the parsed packet to its admitted bucket, or to the handshake
    /// inbox for a connection request on id 0, or drop it.
    pub fn route_datagram(&mut self, bytes: &[u8]) -> (outcome: RouteOutcome)
        requires
            old(self).spec_wf(),
        ensures
            final(self).spec_wf(),
            outcome == old(self).spec_route_outcome(bytes@),
            final(self).hash_key == old(self).hash_key,
            final(self).max_datagram_length == old(self).max_datagram_length,
            match outcome {
                RouteOutcome::Delivered(id) => {
                    &&& final(self).handshake_inbox@ == old(self).handshake_inbox@
                    &&& final(self).spec_has_bucket(id)
                    &&& final(self).spec_bucket(id).len() == old(self).spec_bucket(id).len() + 1
                    &&& forall|k: int|
                        0 <= k < old(self).spec_bucket(id).len() ==> #[trigger] final(self).spec_bucket(id)[k] == old(self).spec_bucket(id)[k]
                    &&& final(self).spec_bucket(id).last().header == spec_read_header(bytes@)
                    &&& final(self).spec_bucket(id).last().payload@ == spec_datagram_payload(
                        bytes@,
                    )
                    &&& forall|q: u32|
                        q != id ==> #[trigger] spec_lookup(final(self).buckets@, q) == spec_lookup(
                            old(self).buckets@,
                            q,
                        )
                },
                RouteOutcome::Handshake => {
                    &&& final(self).buckets@ == old(self).buckets@
                    &&& final(self).handshake_inbox@.len() == old(self).handshake_inbox@.len() + 1
                    &&& forall|k: int|
                        0 <= k < old(self).handshake_inbox@.len() ==> #[trigger] final(self).handshake_inbox@[k] == old(self).handshake_inbox@[k]
                    &&& final(self).handshake_inbox@.last().header == spec_read_header(bytes@)
                    &&& final(self).handshake_inbox@.last().payload@ == spec_datagram_payload(
                        bytes@,
                    )
                },
                RouteOutcome::Dropped => *final(self) == *old(self),
                RouteOutcome::Malformed => *final(self) == *old(self),
            },
    {
        let parsed = match parse_datagram(bytes, self.hash_key, self.max_datagram_length) {
            Some(parts) => parts,
            None => {
                return RouteOutcome::Malformed;
            },
        };
        let (header, payload) = parsed;
        match self.find_bucket(header.connection_id) {
            Some(i) => {
                let ghost pre = self.buckets@;
                let (key_id, mut bucket) = self.buckets.remove(i);
                let ghost pre_bucket = bucket@;
                bucket.push(Packet { header, payload });
                self.buckets.insert(i, (key_id, bucket));
                proof {
                    assert(self.buckets@ =~= pre.update(i as int, self.buckets@[i as int]));
                    assert forall|q: u32| true implies #[trigger] spec_lookup(self.buckets@, q)
                        == (if q == header.connection_id {
                        Some(pre_bucket.push(Packet { header, payload: self.buckets@[i as int].1@.last().payload }))
                    } else {
                        spec_lookup(pre, q)
                    }) by {
                        lemma_lookup_update(pre, i as int, self.buckets@[i as int], q);
                    }
                }
                RouteOutcome::Delivered(header.connection_id)
            },
            None => {
                if header.connection_id == 0 && header.flags & FLAG_REQUEST_CONNECTION != 0 {
                    self.handshake_inbox.push(Packet { header, payload });
                    RouteOutcome::Handshake
                } else {
                    RouteOutcome::Dropped
                }
            },
        }
    }
}

/// A bucket found at a position resolves by lookup.
proof fn lemma_lookup_found(table: Seq<(u32, Vec<Packet>)>, i: int, id: u32)
    requires
        0 <= i < table.len(),
        table[i].0 == id,
    ensures
        spec_lookup(table, id) is Some,
    decreases table.len(),
{
    if i > 0 && table[0].0 != id {
        lemma_lookup_found(table.skip(1), i - 1, id);
    }
}

/// Server-side admission control: a shared endpoint may admit or block
/// individual connection ids; packets for blocked ids are dropped rather
/// than queued.
pub trait ServerEndpoint {
    /// Allow receiving packets with the provided connection id.
    fn allow_connection_id(&mut self, connection_id: ConnectionId);

    /// Undo `allow_connection_id`, letting the endpoint drop packets with
    /// the provided connection id.
    fn block_connection_id(&mut self, connection_id: ConnectionId);
}

impl ServerEndpoint for Endpoint {
    fn allow_connection_id(&mut self, connection_id: ConnectionId) {
        Endpoint::allow_connection_id(self, connection_id)
    }

    fn block_connection_id(&mut self, connection_id: ConnectionId) {
        Endpoint::block_connection_id(self, connection_id)
    }
}

} // verus!
