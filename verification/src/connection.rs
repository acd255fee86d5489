//! Connection state machines: the client-initiated handshake and the
//! established-connection facade over the reliability engine, the parcel
//! channels and the stream channel.
//!
//! A connection never performs I/O. Every send-like operation frames, seals
//! and queues a complete datagram; `flush` hands the queued datagrams out for
//! the caller to transmit, and inbound datagrams come back in through
//! [`Connection::handle_packet`] after hash verification and demultiplexing.
//! Time enters as explicit millisecond timestamps.

use vstd::prelude::*;

use crate::ack::ReceiveWindow;
use crate::ack::spec_newer_than;
use crate::ack::spec_window_after;
use crate::ack::spec_window_acked;
use crate::ack::spec_wrap_distance;
use crate::error::ConnectError;
use crate::error::ConnectionError;
use crate::error::PendingConnectionError;
use crate::packet::FLAG_ACCEPT_CONNECTION;
use crate::packet::FLAG_CARRIES_PARCEL;
use crate::packet::FLAG_CARRIES_STREAM;
use crate::packet::FLAG_CLOSE;
use crate::packet::FLAG_REJECT_CONNECTION;
use crate::packet::FLAG_REQUEST_CONNECTION;
use crate::packet::FLAG_SYNCHRONIZED;
use crate::packet::HASH_SIZE;
use crate::packet::HEADER_SIZE;
use crate::packet::PacketHeader;
use crate::packet::build_datagram;
use crate::packet::spec_datagram;
use crate::reliability::SendTracker;
use crate::reliability::SentRecord;
use crate::reliability::spec_record_uncovered;
use crate::stream::StreamAssembler;
use crate::stream::StreamOutbox;
use crate::stream::absolute_offset;
use crate::stream::spec_offset_window;
use crate::ByteSerialize;
use crate::Parcel;

verus! {

/// State of a [`Connection`].
#[derive(Clone, Copy, Debug, PartialEq, Eq, Structural)]
pub enum ConnectionStatus {
    /// Normal functioning state; the connection's full functionality may be
    /// used.
    Open,
    /// Deemed lost for lack of relevant inbound traffic or for exhausted
    /// retries; may be dropped or re-established by the application.
    Lost,
    /// Explicitly closed, locally or by the peer; terminal.
    Closed,
}

/// Tunable parameters of a connection, all with defaults.
#[derive(Clone, Copy, Debug, PartialEq, Eq, Structural)]
pub struct ConnectionConfig {
    /// Inactivity span after which an open connection is deemed lost.
    pub timeout_ms: u64,
    /// How long a pending connection waits before resending its request.
    pub handshake_retry_interval_ms: u64,
    /// Initial retransmission timeout for reliable packets.
    pub rto_initial_ms: u64,
    /// Cap on the retransmission timeout as it doubles.
    pub rto_max_ms: u64,
    /// Retransmissions after which the connection is deemed lost.
    pub max_retries: u32,
    /// Exact size of every datagram on the wire.
    pub max_datagram_length: usize,
    /// Key both endpoints seed the packet integrity hash with.
    pub hash_key: u64,
}

impl ConnectionConfig {
    /// The datagram size leaves room for the header, the hash trailer and at
    /// least one payload byte, and payload lengths fit the 16-bit field.
    pub open spec fn spec_wf(self) -> bool {
        &&& HEADER_SIZE + HASH_SIZE < self.max_datagram_length
        &&& self.max_datagram_length <= 0x10000
    }

    /// Payload bytes a single packet can carry.
    pub open spec fn spec_max_payload(self) -> int {
        self.max_datagram_length - HEADER_SIZE - HASH_SIZE
    }

    /// Payload bytes a single packet can carry.
    pub fn max_payload(&self) -> (n: usize)
        requires
            self.spec_wf(),
        ensures
            n as int == self.spec_max_payload(),
    {
        self.max_datagram_length - HEADER_SIZE - HASH_SIZE
    }
}

impl Default for ConnectionConfig {
    /// The defaults: 5 s timeout, 2.5 s handshake retry, 100 ms initial and
    /// 1 s maximum retransmission timeout, 10 retries, 1200-byte datagrams.
    fn default() -> (c: Self)
        ensures
            c.timeout_ms == 5000,
            c.handshake_retry_interval_ms == 2500,
            c.rto_initial_ms == 100,
            c.rto_max_ms == 1000,
            c.max_retries == 10,
            c.max_datagram_length == 1200,
            c.hash_key == 0,
            c.spec_wf(),
    {
        ConnectionConfig {
            timeout_ms: 5000,
            handshake_retry_interval_ms: 2500,
            rto_initial_ms: 100,
            rto_max_ms: 1000,
            max_retries: 10,
            max_datagram_length: 1200,
            hash_key: 0,
        }
    }
}

/// The packet index following `i` in the wrapping sequence space.
pub open spec fn spec_wrap_inc(i: u16) -> u16 {
    if i == 0xffff {
        0u16
    } else {
        (i + 1) as u16
    }
}

/// Handing out one more index ages every other index by one, as long as it
/// is not the single index about to be reissued.
proof fn lemma_age_shift(n: u16, i: u16)
    requires
        spec_wrap_distance(n, i) <= 0xfffe,
    ensures
        spec_wrap_distance(spec_wrap_inc(n), i) == spec_wrap_distance(n, i) + 1,
{
}

/// The retransmission timeout after `k` retransmissions: the initial value
/// doubled each time, capped.
pub open spec fn spec_rto(config: ConnectionConfig, k: nat) -> int
    decreases k,
{
    if k == 0 {
        if config.rto_initial_ms <= config.rto_max_ms {
            config.rto_initial_ms as int
        } else {
            config.rto_max_ms as int
        }
    } else {
        let p = spec_rto(config, (k - 1) as nat);
        if p + p >= config.rto_max_ms {
            config.rto_max_ms as int
        } else {
            p + p
        }
    }
}

proof fn lemma_rto_bounded(config: ConnectionConfig, k: nat)
    ensures
        spec_rto(config, k) <= config.rto_max_ms,
    decreases k,
{
    if k > 0 {
        lemma_rto_bounded(config, (k - 1) as nat);
    }
}

/// Compute the retransmission timeout after `k` retransmissions.
fn compute_rto(config: &ConnectionConfig, k: u32) -> (rto: u64)
    ensures
        rto as int == spec_rto(*config, k as nat),
{
    let mut rto: u64 = if config.rto_initial_ms <= config.rto_max_ms {
        config.rto_initial_ms
    } else {
        config.rto_max_ms
    };
    let mut i: u32 = 0;
    proof {
        if rto == config.rto_max_ms {
            lemma_rto_saturates(*config, 0nat, k as nat);
        }
    }
    while i < k && rto < config.rto_max_ms
        invariant
            0 <= i <= k,
            rto as int == spec_rto(*config, i as nat),
            rto <= config.rto_max_ms,
            rto == config.rto_max_ms ==> rto as int == spec_rto(*config, k as nat),
        decreases k - i,
    {
        proof {
            lemma_rto_bounded(*config, i as nat);
        }
        rto = if rto >= config.rto_max_ms - rto {
            config.rto_max_ms
        } else {
            rto + rto
        };
        i = i + 1;
        proof {
            if rto == config.rto_max_ms && i < k {
                lemma_rto_saturates(*config, i as nat, k as nat);
            }
        }
    }
    rto
}

proof fn lemma_rto_saturates(config: ConnectionConfig, i: nat, j: nat)
    requires
        spec_rto(config, i) == config.rto_max_ms,
        i <= j,
    ensures
        spec_rto(config, j) == config.rto_max_ms,
    decreases j - i,
{
    lemma_rto_bounded(config, i);
    if i < j {
        lemma_rto_saturates(config, i, (j - 1) as nat);
        lemma_rto_bounded(config, (j - 1) as nat);
    }
}

/// After allocating one index and tracking the sent packet under it, the
/// age invariant still holds and exactly one fewer allocation remains.
proof fn lemma_ages_after_send(pre: SendTracker, post: SendTracker)
    requires
        pre.spec_indices_wf(),
        pre.spec_allocations_left() >= 1,
        post.next_index == spec_wrap_inc(pre.next_index),
        post.records@.len() == pre.records@.len() + 1,
        forall|j: int| 0 <= j < pre.records@.len() ==> post.records@[j] == pre.records@[j],
        post.records@.last().index == pre.next_index,
    ensures
        post.spec_indices_wf(),
        post.spec_allocations_left() == pre.spec_allocations_left() - 1,
{
    let n = pre.records@.len() as int;
    assert forall|j: int| 0 <= j < n implies pre.spec_index_age(j) <= 0xfffe by {
        if j > 0 {
            assert(pre.spec_index_age(0) > pre.spec_index_age(j));
        }
    }
    assert forall|j: int| 0 <= j < post.records@.len() implies 1 <= #[trigger] post.spec_index_age(
        j,
    ) by {
        if j < n {
            assert(pre.spec_index_age(j) <= 0xfffe);
            lemma_age_shift(pre.next_index, pre.records@[j].index);
            assert(post.spec_index_age(j) == pre.spec_index_age(j) + 1);
        } else {
            assert(post.records@[j].index == pre.next_index);
        }
    }
    assert forall|j: int, k: int|
        0 <= j < k < post.records@.len() implies #[trigger] post.spec_index_age(j)
        > #[trigger] post.spec_index_age(k) by {
        assert(pre.spec_index_age(j) <= 0xfffe);
        lemma_age_shift(pre.next_index, pre.records@[j].index);
        if k < n {
            assert(pre.spec_index_age(k) <= 0xfffe);
            lemma_age_shift(pre.next_index, pre.records@[k].index);
            assert(pre.spec_index_age(j) > pre.spec_index_age(k));
        } else {
            assert(post.spec_index_age(k) == 1);
            assert(post.spec_index_age(j) == pre.spec_index_age(j) + 1);
        }
    }
    if n == 0 {
        assert(post.spec_index_age(0) == 1);
    } else {
        assert(pre.spec_index_age(0) <= 0xfffe);
        lemma_age_shift(pre.next_index, pre.records@[0].index);
        assert(post.spec_index_age(0) == pre.spec_index_age(0) + 1);
    }
}

/// After allocating one index without tracking anything, the age invariant
/// still holds and at most one fewer allocation remains.
proof fn lemma_ages_after_allocation(pre: SendTracker, post: SendTracker)
    requires
        pre.spec_indices_wf(),
        pre.spec_allocations_left() >= 1,
        post.next_index == spec_wrap_inc(pre.next_index),
        post.records@ == pre.records@,
    ensures
        post.spec_indices_wf(),
        post.spec_allocations_left() >= pre.spec_allocations_left() - 1,
{
    let n = pre.records@.len() as int;
    assert forall|j: int| 0 <= j < n implies pre.spec_index_age(j) <= 0xfffe by {
        if j > 0 {
            assert(pre.spec_index_age(0) > pre.spec_index_age(j));
        }
    }
    assert forall|j: int| 0 <= j < post.records@.len() implies 1 <= #[trigger] post.spec_index_age(
        j,
    ) by {
        assert(pre.spec_index_age(j) <= 0xfffe);
        lemma_age_shift(pre.next_index, pre.records@[j].index);
        assert(post.spec_index_age(j) == pre.spec_index_age(j) + 1);
    }
    assert forall|j: int, k: int|
        0 <= j < k < post.records@.len() implies #[trigger] post.spec_index_age(j)
        > #[trigger] post.spec_index_age(k) by {
        assert(pre.spec_index_age(j) <= 0xfffe);
        assert(pre.spec_index_age(k) <= 0xfffe);
        lemma_age_shift(pre.next_index, pre.records@[j].index);
        lemma_age_shift(pre.next_index, pre.records@[k].index);
        assert(pre.spec_index_age(j) > pre.spec_index_age(k));
    }
    if n > 0 {
        assert(pre.spec_index_age(0) <= 0xfffe);
        lemma_age_shift(pre.next_index, pre.records@[0].index);
    }
}

/// A virtual link to a remote endpoint, carrying reliable parcels, volatile
/// parcels and an ordered byte stream over unreliable datagrams.
pub struct Connection {
    /// The id the peer stamps on packets it sends to us.
    pub connection_id: crate::ConnectionId,
    /// The id we stamp on packets we send to the peer.
    pub remote_connection_id: crate::ConnectionId,
    /// Tunables agreed at establishment.
    pub config: ConnectionConfig,
    /// Current lifecycle state.
    pub status: ConnectionStatus,
    /// When we last queued a packet, in milliseconds.
    pub last_sent_ms: u64,
    /// When we last accepted an inbound packet, in milliseconds.
    pub last_recv_ms: u64,
    /// What we have received and will acknowledge.
    pub window: ReceiveWindow,
    /// Index allocation and sent-but-unacknowledged reliable packets.
    pub tracker: SendTracker,
    /// Sealed datagrams awaiting a `flush`.
    pub outgoing: Vec<Vec<u8>>,
    /// Delivered parcels with their preludes, oldest first.
    pub parcel_inbox: Vec<(Vec<u8>, u32)>,
    /// Inbound stream reassembly.
    pub assembler: StreamAssembler,
    /// Outbound stream buffering.
    pub outbox: StreamOutbox,
}

/// The header an outgoing packet of connection `c` gets: the peer's id, the
/// next send index, the current receive window as ack fields, and the
/// synchronized bit once anything was received.
pub open spec fn spec_outgoing_header(
    c: Connection,
    flags: u8,
    prelude: u32,
    payload_len: u16,
) -> PacketHeader {
    PacketHeader {
        connection_id: c.remote_connection_id,
        packet_index: c.tracker.next_index,
        ack_index: c.window.ack_index,
        ack_mask: c.window.ack_mask,
        flags: if c.window.started {
            (flags | FLAG_SYNCHRONIZED) as u8
        } else {
            flags
        },
        prelude,
        payload_length: payload_len,
    }
}

/// Timers say the connection is gone: nothing was received for longer than
/// the timeout.
pub open spec fn spec_timed_out(c: Connection, now_ms: u64) -> bool {
    now_ms > c.last_recv_ms + c.config.timeout_ms
}

/// The status an API call at `now_ms` sees, after applying the timeout.
pub open spec fn spec_status_after_poll(c: Connection, now_ms: u64) -> ConnectionStatus {
    if c.status is Open && spec_timed_out(c, now_ms) {
        ConnectionStatus::Lost
    } else {
        c.status
    }
}

/// Everything but the parts a send touches is unchanged.
pub open spec fn spec_send_frame(pre: Connection, post: Connection) -> bool {
    &&& post.connection_id == pre.connection_id
    &&& post.remote_connection_id == pre.remote_connection_id
    &&& post.config == pre.config
    &&& post.status == pre.status
    &&& post.last_recv_ms == pre.last_recv_ms
    &&& post.window == pre.window
    &&& post.parcel_inbox@ == pre.parcel_inbox@
    &&& post.assembler == pre.assembler
    &&& post.outbox == pre.outbox
}

/// The effect of queueing one reliable packet: the sealed datagram joins the
/// outgoing queue, a matching record joins the unacknowledged set, the send
/// index advances and the send clock is refreshed.
pub open spec fn spec_after_reliable_send(
    pre: Connection,
    flags: u8,
    prelude: u32,
    payload: Seq<u8>,
    now_ms: u64,
    post: Connection,
) -> bool {
    let hdr = spec_outgoing_header(pre, flags, prelude, payload.len() as u16);
    &&& spec_send_frame(pre, post)
    &&& post.outgoing@.len() == pre.outgoing@.len() + 1
    &&& forall|j: int| 0 <= j < pre.outgoing@.len() ==> post.outgoing@[j] == pre.outgoing@[j]
    &&& post.outgoing@.last()@ == spec_datagram(
        pre.config.hash_key,
        pre.config.max_datagram_length as int,
        hdr,
        payload,
    )
    &&& post.tracker.next_index == spec_wrap_inc(pre.tracker.next_index)
    &&& post.tracker.records@.len() == pre.tracker.records@.len() + 1
    &&& forall|j: int|
        0 <= j < pre.tracker.records@.len() ==> post.tracker.records@[j] == pre.tracker.records@[j]
    &&& post.tracker.records@.last().index == pre.tracker.next_index
    &&& post.tracker.records@.last().flags == hdr.flags
    &&& post.tracker.records@.last().prelude == prelude
    &&& post.tracker.records@.last().payload@ == payload
    &&& post.tracker.records@.last().send_time_ms == now_ms
    &&& post.tracker.records@.last().retransmits == 0
    &&& post.last_sent_ms == now_ms
}

/// The effect of queueing one volatile packet: as the reliable effect, but
/// nothing joins the unacknowledged set.
pub open spec fn spec_after_volatile_send(
    pre: Connection,
    flags: u8,
    prelude: u32,
    payload: Seq<u8>,
    now_ms: u64,
    post: Connection,
) -> bool {
    let hdr = spec_outgoing_header(pre, flags, prelude, payload.len() as u16);
    &&& spec_send_frame(pre, post)
    &&& post.outgoing@.len() == pre.outgoing@.len() + 1
    &&& forall|j: int| 0 <= j < pre.outgoing@.len() ==> post.outgoing@[j] == pre.outgoing@[j]
    &&& post.outgoing@.last()@ == spec_datagram(
        pre.config.hash_key,
        pre.config.max_datagram_length as int,
        hdr,
        payload,
    )
    &&& post.tracker.next_index == spec_wrap_inc(pre.tracker.next_index)
    &&& post.tracker.records@ == pre.tracker.records@
    &&& post.last_sent_ms == now_ms
}

impl Connection {
    /// All internal invariants: a sane configuration, sound stream state on
    /// both sides, and no tracked payload beyond what one packet carries.
    pub open spec fn spec_wf(self) -> bool {
        &&& self.connection_id != 0
        &&& self.remote_connection_id != 0
        &&& self.config.spec_wf()
        &&& self.assembler.spec_wf()
        &&& self.outbox.spec_wf()
        &&& self.tracker.spec_indices_wf()
        &&& forall|j: int|
            0 <= j < self.tracker.records@.len() ==> (
            #[trigger] self.tracker.records@[j]).payload@.len() <= self.config.spec_max_payload()
    }

    /// A connection in the open state, as the handshake establishes it.
    pub fn opened(
        connection_id: crate::ConnectionId,
        remote_connection_id: crate::ConnectionId,
        config: ConnectionConfig,
        now_ms: u64,
    ) -> (c: Connection)
        requires
            config.spec_wf(),
            connection_id != 0,
            remote_connection_id != 0,
        ensures
            c.spec_wf(),
            c.connection_id == connection_id,
            c.remote_connection_id == remote_connection_id,
            c.config == config,
            c.status is Open,
            c.last_sent_ms == now_ms,
            c.last_recv_ms == now_ms,
            !c.window.started,
            c.tracker.next_index == 0,
            c.tracker.records@.len() == 0,
            c.outgoing@.len() == 0,
            c.parcel_inbox@.len() == 0,
            c.assembler.inserts@.len() == 0,
            c.assembler.read_offset == 0,
            c.assembler.contiguous@.len() == 0,
            c.outbox.history@.len() == 0,
    {
        Connection {
            connection_id,
            remote_connection_id,
            config,
            status: ConnectionStatus::Open,
            last_sent_ms: now_ms,
            last_recv_ms: now_ms,
            window: ReceiveWindow::new(),
            tracker: SendTracker::new(),
            outgoing: Vec::new(),
            parcel_inbox: Vec::new(),
            assembler: StreamAssembler::new(),
            outbox: StreamOutbox::new(),
        }
    }

    /// Apply the timeout to the stored status.
    fn poll(&mut self, now_ms: u64)
        ensures
            *final(self) == (Connection {
                status: spec_status_after_poll(*old(self), now_ms),
                ..*old(self)
            }),
    {
        if self.status == ConnectionStatus::Open && now_ms > self.last_recv_ms && now_ms
            - self.last_recv_ms > self.config.timeout_ms {
            self.status = ConnectionStatus::Lost;
        }
    }

    /// Refresh the status from the timers and fail unless the connection is
    /// open.
    fn guard(&mut self, now_ms: u64) -> (r: Result<(), ConnectionError>)
        ensures
            *final(self) == (Connection {
                status: spec_status_after_poll(*old(self), now_ms),
                ..*old(self)
            }),
            match r {
                Ok(()) => spec_status_after_poll(*old(self), now_ms) is Open,
                Err(ConnectionError::ConnectionLost) => spec_status_after_poll(
                    *old(self),
                    now_ms,
                ) is Lost,
                Err(ConnectionError::ConnectionClosed) => spec_status_after_poll(
                    *old(self),
                    now_ms,
                ) is Closed,
                Err(_) => false,
            },
    {
        self.poll(now_ms);
        match self.status {
            ConnectionStatus::Open => Ok(()),
            ConnectionStatus::Lost => Err(ConnectionError::ConnectionLost),
            ConnectionStatus::Closed => Err(ConnectionError::ConnectionClosed),
        }
    }

    /// Get the current status, first updating it from the timers: an open
    /// connection over whose timeout nothing was received turns lost.
    pub fn status(&mut self, now_ms: u64) -> (st: ConnectionStatus)
        ensures
            st == spec_status_after_poll(*old(self), now_ms),
            *final(self) == (Connection { status: st, ..*old(self) }),
    {
        self.poll(now_ms);
        self.status
    }

    /// Whether the stored status is open. Only queries: the connection may
    /// still turn out lost on the next timed call.
    pub fn is_open(&self) -> (r: bool)
        ensures
            r == (self.status is Open),
    {
        self.status == ConnectionStatus::Open
    }

    /// Queue one reliable packet carrying `payload`.
    fn send_reliable(&mut self, flags: u8, prelude: u32, payload: Vec<u8>, now_ms: u64)
        requires
            old(self).spec_wf(),
            payload@.len() <= old(self).config.spec_max_payload(),
            old(self).tracker.spec_allocations_left() >= 1,
        ensures
            final(self).spec_wf(),
            spec_after_reliable_send(*old(self), flags, prelude, payload@, now_ms, *final(self)),
            final(self).tracker.spec_allocations_left() == old(
                self,
            ).tracker.spec_allocations_left() - 1,
    {
        let idx = self.tracker.allocate_index();
        let wire_flags = if self.window.started {
            flags | FLAG_SYNCHRONIZED
        } else {
            flags
        };
        let header = PacketHeader {
            connection_id: self.remote_connection_id,
            packet_index: idx,
            ack_index: self.window.ack_index,
            ack_mask: self.window.ack_mask,
            flags: wire_flags,
            prelude,
            payload_length: payload.len() as u16,
        };
        let datagram = build_datagram(
            self.config.hash_key,
            self.config.max_datagram_length,
            &header,
            payload.as_slice(),
        );
        self.outgoing.push(datagram);
        self.tracker.record_sent(
            SentRecord {
                index: idx,
                flags: wire_flags,
                prelude,
                payload,
                send_time_ms: now_ms,
                retransmits: 0,
            },
        );
        self.last_sent_ms = now_ms;
        proof {
            lemma_ages_after_send(old(self).tracker, self.tracker);
        }
    }

    /// Queue one volatile packet carrying `payload`.
    fn send_volatile(&mut self, flags: u8, prelude: u32, payload: Vec<u8>, now_ms: u64)
        requires
            old(self).spec_wf(),
            payload@.len() <= old(self).config.spec_max_payload(),
            old(self).tracker.spec_allocations_left() >= 1,
        ensures
            final(self).spec_wf(),
            spec_after_volatile_send(*old(self), flags, prelude, payload@, now_ms, *final(self)),
            final(self).tracker.spec_allocations_left() >= old(
                self,
            ).tracker.spec_allocations_left() - 1,
    {
        let idx = self.tracker.allocate_index();
        let wire_flags = if self.window.started {
            flags | FLAG_SYNCHRONIZED
        } else {
            flags
        };
        let header = PacketHeader {
            connection_id: self.remote_connection_id,
            packet_index: idx,
            ack_index: self.window.ack_index,
            ack_mask: self.window.ack_mask,
            flags: wire_flags,
            prelude,
            payload_length: payload.len() as u16,
        };
        let datagram = build_datagram(
            self.config.hash_key,
            self.config.max_datagram_length,
            &header,
            payload.as_slice(),
        );
        self.outgoing.push(datagram);
        self.last_sent_ms = now_ms;
        proof {
            lemma_ages_after_allocation(old(self).tracker, self.tracker);
        }
    }

    /// Begin reliable transmission of a parcel: it is delivered as long as
    /// the connection stays in a valid state, though not in any guaranteed
    /// order relative to other parcels.
    pub fn push_reliable_parcel<P: Parcel>(&mut self, parcel: &P, now_ms: u64) -> (r: Result<
        (),
        ConnectionError,
    >)
        requires
            old(self).spec_wf(),
            old(self).tracker.spec_allocations_left() >= 1,
        ensures
            final(self).spec_wf(),
            ({
                let st = spec_status_after_poll(*old(self), now_ms);
                let polled = Connection { status: st, ..*old(self) };
                match r {
                    Ok(()) => st is Open && parcel.spec_bytes().len()
                        <= old(self).config.spec_max_payload() && spec_after_reliable_send(
                        polled,
                        FLAG_CARRIES_PARCEL,
                        0,
                        parcel.spec_bytes(),
                        now_ms,
                        *final(self),
                    ),
                    Err(ConnectionError::ConnectionLost) => st is Lost && *final(self) == polled,
                    Err(ConnectionError::ConnectionClosed) => st is Closed && *final(self)
                        == polled,
                    Err(ConnectionError::PayloadTooLarge) => st is Open && parcel.spec_bytes().len()
                        > old(self).config.spec_max_payload() && *final(self) == polled,
                    Err(_) => false,
                }
            }),
    {
        match self.guard(now_ms) {
            Ok(()) => (),
            Err(e) => {
                return Err(e);
            },
        }
        let bytes = parcel.to_bytes();
        if bytes.len() > self.config.max_payload() {
            return Err(ConnectionError::PayloadTooLarge);
        }
        self.send_reliable(FLAG_CARRIES_PARCEL, 0, bytes, now_ms);
        Ok(())
    }

    /// Begin best-effort transmission of a parcel: sent once, never
    /// retransmitted.
    pub fn push_volatile_parcel<P: Parcel>(&mut self, parcel: &P, now_ms: u64) -> (r: Result<
        (),
        ConnectionError,
    >)
        requires
            old(self).spec_wf(),
            old(self).tracker.spec_allocations_left() >= 1,
        ensures
            final(self).spec_wf(),
            ({
                let st = spec_status_after_poll(*old(self), now_ms);
                let polled = Connection { status: st, ..*old(self) };
                match r {
                    Ok(()) => st is Open && parcel.spec_bytes().len()
                        <= old(self).config.spec_max_payload() && spec_after_volatile_send(
                        polled,
                        FLAG_CARRIES_PARCEL,
                        0,
                        parcel.spec_bytes(),
                        now_ms,
                        *final(self),
                    ),
                    Err(ConnectionError::ConnectionLost) => st is Lost && *final(self) == polled,
                    Err(ConnectionError::ConnectionClosed) => st is Closed && *final(self)
                        == polled,
                    Err(ConnectionError::PayloadTooLarge) => st is Open && parcel.spec_bytes().len()
                        > old(self).config.spec_max_payload() && *final(self) == polled,
                    Err(_) => false,
                }
            }),
    {
        match self.guard(now_ms) {
            Ok(()) => (),
            Err(e) => {
                return Err(e);
            },
        }
        let bytes = parcel.to_bytes();
        if bytes.len() > self.config.max_payload() {
            return Err(ConnectionError::PayloadTooLarge);
        }
        self.send_volatile(FLAG_CARRIES_PARCEL, 0, bytes, now_ms);
        Ok(())
    }

    /// Pop the oldest delivered parcel together with the prelude of the
    /// packet that carried it. A payload that fails to deserialize is
    /// discarded.
    pub fn pop_parcel<P: Parcel>(&mut self, now_ms: u64) -> (r: Result<(P, u32), ConnectionError>)
        requires
            old(self).spec_wf(),
        ensures
            final(self).spec_wf(),
            ({
                let st = spec_status_after_poll(*old(self), now_ms);
                let polled = Connection { status: st, ..*old(self) };
                match r {
                    Ok((p, prelude)) => st is Open && old(self).parcel_inbox@.len() > 0
                        && P::spec_parses(old(self).parcel_inbox@[0].0@) && p.spec_bytes() == old(
                        self,
                    ).parcel_inbox@[0].0@ && prelude == old(self).parcel_inbox@[0].1 && *final(self)
                        == Connection {
                        parcel_inbox: final(self).parcel_inbox,
                        ..polled
                    } && final(self).parcel_inbox@ == old(self).parcel_inbox@.skip(1),
                    Err(ConnectionError::NoPendingParcels) => st is Open && old(self).parcel_inbox@.len() == 0 && *final(self) == polled,
                    Err(ConnectionError::MalformedPacket) => st is Open && old(self).parcel_inbox@.len() > 0 && !P::spec_parses(old(self).parcel_inbox@[0].0@) && *final(self)
                        == Connection {
                        parcel_inbox: final(self).parcel_inbox,
                        ..polled
                    } && final(self).parcel_inbox@ == old(self).parcel_inbox@.skip(1),
                    Err(ConnectionError::ConnectionLost) => st is Lost && *final(self) == polled,
                    Err(ConnectionError::ConnectionClosed) => st is Closed && *final(self)
                        == polled,
                    Err(_) => false,
                }
            }),
    {
        match self.guard(now_ms) {
            Ok(()) => (),
            Err(e) => {
                return Err(e);
            },
        }
        if self.parcel_inbox.len() == 0 {
            return Err(ConnectionError::NoPendingParcels);
        }
        let (payload, prelude) = self.parcel_inbox.remove(0);
        proof {
            assert(self.parcel_inbox@ =~= old(self).parcel_inbox@.skip(1));
        }
        match P::from_bytes(payload.as_slice()) {
            Ok(p) => Ok((p, prelude)),
            Err(_) => Err(ConnectionError::MalformedPacket),
        }
    }
}

/// Whether a packet's flags make [`Connection::handle_packet`] insert its
/// payload into the stream: it was delivered, carries stream and not parcel
/// data, and the frontier leaves room to place it.
pub open spec fn spec_stream_insert_case(c: Connection, h: PacketHeader, delivered: bool) -> bool {
    &&& delivered
    &&& h.flags & FLAG_CARRIES_PARCEL == 0
    &&& h.flags & FLAG_CARRIES_STREAM != 0
    &&& c.assembler.spec_frontier() < 0xffff_fffe_0000_0000
}

/// A record is due for retransmission: its last send lies further back than
/// its current retransmission timeout.
pub open spec fn spec_record_due(c: Connection, r: SentRecord, now_ms: u64) -> bool {
    now_ms > r.send_time_ms + spec_rto(c.config, r.retransmits as nat)
}

/// Some unacknowledged packet is due and has exhausted its retries: the
/// connection is to be deemed lost.
pub open spec fn spec_retry_exhausted(c: Connection, now_ms: u64) -> bool {
    exists|j: int|
        0 <= j < c.tracker.records@.len() && spec_record_due(c, #[trigger] c.tracker.records@[j], now_ms)
            && c.tracker.records@[j].retransmits >= c.config.max_retries
}

/// The datagram that resends record `r` under connection `c`'s current ack
/// fields.
pub open spec fn spec_resend_datagram(c: Connection, r: SentRecord) -> Seq<u8> {
    spec_datagram(
        c.config.hash_key,
        c.config.max_datagram_length as int,
        PacketHeader {
            connection_id: c.remote_connection_id,
            packet_index: r.index,
            ack_index: c.window.ack_index,
            ack_mask: c.window.ack_mask,
            flags: if c.window.started {
                (r.flags | FLAG_SYNCHRONIZED) as u8
            } else {
                r.flags
            },
            prelude: r.prelude,
            payload_length: r.payload@.len() as u16,
        },
        r.payload@,
    )
}

impl Connection {
    /// Take one hash-verified, demultiplexed inbound packet and say whether
    /// its contents were delivered (false for duplicates, traffic older than
    /// the whole ack window, or a closed connection — a duplicate adds no
    /// parcel and no stream bytes). Updates liveness, the receive window,
    /// the unacknowledged set, and the channel the packet carries data for.
    pub fn handle_packet(&mut self, header: &PacketHeader, payload: Vec<u8>, now_ms: u64) -> (delivered:
        bool)
        requires
            old(self).spec_wf(),
            payload@.len() == header.payload_length,
        ensures
            final(self).spec_wf(),
            final(self).connection_id == old(self).connection_id,
            final(self).remote_connection_id == old(self).remote_connection_id,
            final(self).config == old(self).config,
            final(self).outgoing@ == old(self).outgoing@,
            final(self).outbox == old(self).outbox,
            final(self).last_sent_ms == old(self).last_sent_ms,
            final(self).tracker.next_index == old(self).tracker.next_index,
            old(self).status is Closed ==> *final(self) == *old(self) && !delivered,
            !(old(self).status is Closed) ==> {
                &&& final(self).last_recv_ms == now_ms
                &&& final(self).window == spec_window_after(
                    old(self).window,
                    header.packet_index,
                )
                &&& final(self).status == (if header.flags & FLAG_CLOSE != 0 {
                    ConnectionStatus::Closed
                } else {
                    old(self).status
                })
                &&& delivered == (!spec_window_acked(old(self).window, header.packet_index) && (
                !old(self).window.started || spec_newer_than(
                    header.packet_index,
                    old(self).window.ack_index,
                ) || spec_wrap_distance(old(self).window.ack_index, header.packet_index) <= 64))
                &&& (delivered ==> spec_window_acked(final(self).window, header.packet_index))
                &&& forall|i: u16|
                    spec_window_acked(final(self).window, i) ==> spec_window_acked(
                        old(self).window,
                        i,
                    ) || i == header.packet_index
                &&& (header.flags & FLAG_SYNCHRONIZED != 0 ==> final(self).tracker.records@ == old(self).tracker.records@.filter(
                    |r: SentRecord|
                        spec_record_uncovered(header.ack_index, header.ack_mask, r),
                ))
                &&& (header.flags & FLAG_SYNCHRONIZED == 0 ==> final(self).tracker.records@ == old(self).tracker.records@)
                &&& ((delivered && header.flags & FLAG_CARRIES_PARCEL != 0) ==> final(self).parcel_inbox@ == old(self).parcel_inbox@.push((payload, header.prelude)))
                &&& (!(delivered && header.flags & FLAG_CARRIES_PARCEL != 0) ==> final(self).parcel_inbox@ == old(self).parcel_inbox@)
                &&& (spec_stream_insert_case(*old(self), *header, delivered) ==> {
                    let entry = final(self).assembler.inserts@.last();
                    &&& final(self).assembler.inserts@ == old(self).assembler.inserts@.push(entry)
                    &&& entry.1 == payload@
                    &&& entry.0 as int % 0x1_0000_0000 == header.prelude as int
                    &&& spec_offset_window(old(self).assembler.spec_frontier() as u64) <= entry.0
                        < spec_offset_window(old(self).assembler.spec_frontier() as u64)
                        + 0x1_0000_0000
                    &&& final(self).assembler.read_offset == old(self).assembler.read_offset
                    &&& (entry.0 > final(self).assembler.spec_frontier() ==> final(self).assembler.pending@.contains((entry.0, payload)))
                })
                &&& (!spec_stream_insert_case(*old(self), *header, delivered) ==> final(self).assembler == old(self).assembler)
            },
    {
        if self.status == ConnectionStatus::Closed {
            return false;
        }
        self.last_recv_ms = now_ms;
        let delivered = self.window.note_received(header.packet_index);
        // Ack fields are trusted only from a synchronized peer: one that has
        // received nothing yet necessarily carries zero-filled ack fields,
        // which would otherwise wrongly acknowledge packet index 0.
        if header.flags & FLAG_SYNCHRONIZED != 0 {
            self.tracker.process_acks(header.ack_index, header.ack_mask);
            proof {
                assert forall|j: int| 0 <= j < self.tracker.records@.len() implies (
                #[trigger] self.tracker.records@[j]).payload@.len()
                    <= self.config.spec_max_payload() by {
                    let r = self.tracker.records@[j];
                    assert(old(self).tracker.records@.contains(r));
                    let i = choose|i: int|
                        0 <= i < old(self).tracker.records@.len() && old(self).tracker.records@[i]
                            == r;
                    assert(old(self).tracker.records@[i].payload@.len() <= self.config.spec_max_payload());
                }
            }
        }
        if header.flags & FLAG_CLOSE != 0 {
            self.status = ConnectionStatus::Closed;
        }
        if delivered && header.flags & FLAG_CARRIES_PARCEL != 0 {
            self.parcel_inbox.push((payload, header.prelude));
        } else if delivered && header.flags & FLAG_CARRIES_STREAM != 0 {
            let frontier = self.assembler.read_offset + (self.assembler.contiguous.len() as u64);
            if frontier < 0xffff_fffe_0000_0000 {
                let off = absolute_offset(frontier, header.prelude);
                self.assembler.insert(off, payload);
            }
        }
        delivered
    }

    /// Write bytes to the connection stream: they extend the stream history
    /// and are packed into reliable packets at the next `flush`.
    pub fn write_bytes_to_stream(&mut self, bytes: &[u8], now_ms: u64) -> (r: Result<
        (),
        ConnectionError,
    >)
        requires
            old(self).spec_wf(),
            old(self).outbox.history@.len() + bytes@.len() <= u64::MAX,
        ensures
            final(self).spec_wf(),
            ({
                let st = spec_status_after_poll(*old(self), now_ms);
                let polled = Connection { status: st, ..*old(self) };
                match r {
                    Ok(()) => st is Open && *final(self) == (Connection {
                        outbox: final(self).outbox,
                        ..polled
                    }) && final(self).outbox.history@ == old(self).outbox.history@ + bytes@
                        && final(self).outbox.send_offset == old(self).outbox.send_offset,
                    Err(ConnectionError::ConnectionLost) => st is Lost && *final(self) == polled,
                    Err(ConnectionError::ConnectionClosed) => st is Closed && *final(self)
                        == polled,
                    Err(_) => false,
                }
            }),
    {
        match self.guard(now_ms) {
            Ok(()) => (),
            Err(e) => {
                return Err(e);
            },
        }
        self.outbox.write_bytes(bytes);
        Ok(())
    }

    /// Write a byte-serializable item to the connection stream; returns the
    /// number of bytes written.
    pub fn write_item_to_stream<B: ByteSerialize>(&mut self, item: &B, now_ms: u64) -> (r: Result<
        usize,
        ConnectionError,
    >)
        requires
            old(self).spec_wf(),
            old(self).outbox.history@.len() + item.spec_bytes().len() <= u64::MAX,
        ensures
            final(self).spec_wf(),
            ({
                let st = spec_status_after_poll(*old(self), now_ms);
                let polled = Connection { status: st, ..*old(self) };
                match r {
                    Ok(n) => st is Open && n == item.spec_bytes().len() && *final(self)
                        == (Connection { outbox: final(self).outbox, ..polled }) && final(self).outbox.history@ == old(self).outbox.history@ + item.spec_bytes() && final(self).outbox.send_offset == old(self).outbox.send_offset,
                    Err(ConnectionError::ConnectionLost) => st is Lost && *final(self) == polled,
                    Err(ConnectionError::ConnectionClosed) => st is Closed && *final(self)
                        == polled,
                    Err(_) => false,
                }
            }),
    {
        match self.guard(now_ms) {
            Ok(()) => (),
            Err(e) => {
                return Err(e);
            },
        }
        let bytes = item.to_bytes();
        self.outbox.write_bytes(bytes.as_slice());
        Ok(bytes.len())
    }

    /// Read up to `max_len` in-order bytes from the connection stream,
    /// consuming them: under any history explaining every delivered chunk,
    /// these are the peer's written bytes, in order.
    pub fn read_from_stream(&mut self, max_len: usize, now_ms: u64) -> (r: Result<
        Vec<u8>,
        ConnectionError,
    >)
        requires
            old(self).spec_wf(),
        ensures
            final(self).spec_wf(),
            ({
                let st = spec_status_after_poll(*old(self), now_ms);
                let polled = Connection { status: st, ..*old(self) };
                match r {
                    Ok(out) => {
                        &&& st is Open
                        &&& *final(self) == (Connection {
                            assembler: final(self).assembler,
                            ..polled
                        })
                        &&& out@.len() == (if max_len <= old(self).assembler.contiguous@.len() {
                            max_len as int
                        } else {
                            old(self).assembler.contiguous@.len() as int
                        })
                        &&& out@ == old(self).assembler.contiguous@.take(out@.len() as int)
                        &&& forall|sigma: Seq<u8>|
                            crate::stream::spec_log_genuine(old(self).assembler.inserts@, sigma)
                                ==> out@ == sigma.subrange(
                                old(self).assembler.read_offset as int,
                                old(self).assembler.read_offset + out@.len(),
                            )
                        &&& final(self).assembler.inserts == old(self).assembler.inserts
                        &&& final(self).assembler.read_offset == old(self).assembler.read_offset
                            + out@.len()
                    },
                    Err(ConnectionError::ConnectionLost) => st is Lost && *final(self) == polled,
                    Err(ConnectionError::ConnectionClosed) => st is Closed && *final(self)
                        == polled,
                    Err(_) => false,
                }
            }),
    {
        match self.guard(now_ms) {
            Ok(()) => (),
            Err(e) => {
                return Err(e);
            },
        }
        Ok(self.assembler.read_from_stream(max_len))
    }

    /// Number of in-order bytes ready to be read from the incoming stream.
    /// Queries the stored status without touching the timers.
    pub fn pending_incoming_stream_bytes(&self) -> (r: Result<usize, ConnectionError>)
        ensures
            match r {
                Ok(n) => self.status is Open && n == self.assembler.contiguous@.len(),
                Err(ConnectionError::ConnectionLost) => self.status is Lost,
                Err(ConnectionError::ConnectionClosed) => self.status is Closed,
                Err(_) => false,
            },
    {
        match self.status {
            ConnectionStatus::Open => Ok(self.assembler.pending_bytes()),
            ConnectionStatus::Lost => Err(ConnectionError::ConnectionLost),
            ConnectionStatus::Closed => Err(ConnectionError::ConnectionClosed),
        }
    }

    /// Close the connection: frame a single best-effort packet with the close
    /// flag for the caller to send, and turn the local status closed at once.
    /// Every later operation fails closed.
    pub fn close(&mut self, now_ms: u64) -> (r: Result<Vec<u8>, ConnectionError>)
        requires
            old(self).spec_wf(),
            old(self).tracker.spec_allocations_left() >= 1,
        ensures
            final(self).spec_wf(),
            match r {
                Ok(d) => {
                    &&& !(old(self).status is Closed)
                    &&& d@ == spec_datagram(
                        old(self).config.hash_key,
                        old(self).config.max_datagram_length as int,
                        spec_outgoing_header(*old(self), FLAG_CLOSE, 0, 0),
                        Seq::empty(),
                    )
                    &&& *final(self) == (Connection {
                        status: ConnectionStatus::Closed,
                        last_sent_ms: now_ms,
                        tracker: final(self).tracker,
                        ..*old(self)
                    })
                    &&& final(self).tracker.records@ == old(self).tracker.records@
                    &&& final(self).tracker.next_index == spec_wrap_inc(old(self).tracker.next_index)
                },
                Err(ConnectionError::ConnectionClosed) => old(self).status is Closed && *final(self) == *old(self),
                Err(_) => false,
            },
    {
        if self.status == ConnectionStatus::Closed {
            return Err(ConnectionError::ConnectionClosed);
        }
        let idx = self.tracker.allocate_index();
        let wire_flags = if self.window.started {
            FLAG_CLOSE | FLAG_SYNCHRONIZED
        } else {
            FLAG_CLOSE
        };
        let header = PacketHeader {
            connection_id: self.remote_connection_id,
            packet_index: idx,
            ack_index: self.window.ack_index,
            ack_mask: self.window.ack_mask,
            flags: wire_flags,
            prelude: 0,
            payload_length: 0,
        };
        let empty: Vec<u8> = Vec::new();
        let datagram = build_datagram(
            self.config.hash_key,
            self.config.max_datagram_length,
            &header,
            empty.as_slice(),
        );
        proof {
            assert(empty@ =~= Seq::<u8>::empty());
            lemma_ages_after_allocation(old(self).tracker, self.tracker);
        }
        self.status = ConnectionStatus::Closed;
        self.last_sent_ms = now_ms;
        Ok(datagram)
    }
}

/// The header of a connection request: handshake traffic travels on
/// connection id 0 with the nonce in the prelude.
pub open spec fn spec_request_header(nonce: u32, payload_len: u16) -> PacketHeader {
    PacketHeader {
        connection_id: 0,
        packet_index: 0,
        ack_index: 0,
        ack_mask: 0,
        flags: FLAG_REQUEST_CONNECTION,
        prelude: nonce,
        payload_length: payload_len,
    }
}

/// The full request datagram a pending connection (re)sends.
pub open spec fn spec_request_datagram(
    config: ConnectionConfig,
    nonce: u32,
    payload: Seq<u8>,
) -> Seq<u8> {
    spec_datagram(
        config.hash_key,
        config.max_datagram_length as int,
        spec_request_header(nonce, payload.len() as u16),
        payload,
    )
}

/// Relies on rand::random for the 32-bit handshake nonce; nothing is promised
/// of the drawn value. The thread-local generator's first use aborts if the
/// operating system's entropy source fails; no input can avoid that.
#[verifier::external_body]
fn random_u32() -> u32 {
    rand::random::<u32>()
}

/// A connection in the process of being established: it resends its request
/// until the responder's accept or reject arrives, or it times out.
#[derive(Debug)]
pub struct PendingConnection {
    /// Nonce correlating the responder's reply with our request.
    pub handshake_nonce: u32,
    /// The opaque application payload the request carries.
    pub payload: Vec<u8>,
    /// Tunables the established connection will inherit.
    pub config: ConnectionConfig,
    /// When the request was last sent, in milliseconds.
    pub last_sent_ms: u64,
    /// When anything at all last happened, in milliseconds.
    pub last_communication_ms: u64,
}

/// What the replies to a handshake request decide: the first accept carrying
/// our nonce wins, a first reject carrying it refuses, anything else leaves
/// the request pending.
#[derive(Clone, Copy, Debug, PartialEq, Eq, Structural)]
pub enum HandshakeReply {
    /// An accept arrived; the payload carried the assigned connection id.
    Accepted(u32),
    /// A reject matching our nonce arrived.
    Refused,
    /// No decisive reply yet.
    NoReply,
}

/// Whether a reply packet accepts our request: the accept flag, our nonce,
/// at least the four payload bytes holding the assigned id, and a nonzero
/// assigned id (0 is reserved for handshake traffic).
pub open spec fn spec_is_accept(header: PacketHeader, payload: Seq<u8>, nonce: u32) -> bool {
    &&& header.flags & FLAG_ACCEPT_CONNECTION != 0
    &&& header.prelude == nonce
    &&& payload.len() >= 4
    &&& spec_accepted_id(payload) != 0
}

/// Whether a reply packet rejects our request.
pub open spec fn spec_is_reject(header: PacketHeader, nonce: u32) -> bool {
    &&& header.flags & FLAG_REJECT_CONNECTION != 0
    &&& header.prelude == nonce
}

/// The id an accept reply assigns.
pub open spec fn spec_accepted_id(payload: Seq<u8>) -> u32 {
    vstd::bytes::spec_u32_from_le_bytes(payload.subrange(0, 4))
}

/// What a sequence of replies, walked oldest first, decides.
pub open spec fn spec_handshake_reply(
    replies: Seq<(PacketHeader, Vec<u8>)>,
    nonce: u32,
) -> HandshakeReply
    decreases replies.len(),
{
    if replies.len() == 0 {
        HandshakeReply::NoReply
    } else if spec_is_accept(replies[0].0, replies[0].1@, nonce) {
        HandshakeReply::Accepted(spec_accepted_id(replies[0].1@))
    } else if spec_is_reject(replies[0].0, nonce) {
        HandshakeReply::Refused
    } else {
        spec_handshake_reply(replies.skip(1), nonce)
    }
}

impl Connection {
    /// Attempt to establish a new connection: frame a request datagram with a
    /// fresh nonce around the given payload, for the caller to send to the
    /// responder. Payloads beyond one packet's capacity are refused.
    pub fn connect(payload: Vec<u8>, config: ConnectionConfig, now_ms: u64) -> (r: Result<
        (PendingConnection, Vec<u8>),
        ConnectError,
    >)
        requires
            config.spec_wf(),
        ensures
            match r {
                Ok(pair) => {
                    &&& payload@.len() <= config.spec_max_payload()
                    &&& pair.0.config == config
                    &&& pair.0.payload@ == payload@
                    &&& pair.0.last_sent_ms == now_ms
                    &&& pair.0.last_communication_ms == now_ms
                    &&& pair.1@ == spec_request_datagram(config, pair.0.handshake_nonce, payload@)
                },
                Err(ConnectError::PayloadTooLarge) => payload@.len() > config.spec_max_payload(),
            },
    {
        if payload.len() > config.max_payload() {
            return Err(ConnectError::PayloadTooLarge);
        }
        let nonce = random_u32();
        let header = PacketHeader {
            connection_id: 0,
            packet_index: 0,
            ack_index: 0,
            ack_mask: 0,
            flags: FLAG_REQUEST_CONNECTION,
            prelude: nonce,
            payload_length: payload.len() as u16,
        };
        let datagram = build_datagram(
            config.hash_key,
            config.max_datagram_length,
            &header,
            payload.as_slice(),
        );
        let pending = PendingConnection {
            handshake_nonce: nonce,
            payload,
            config,
            last_sent_ms: now_ms,
            last_communication_ms: now_ms,
        };
        Ok((pending, datagram))
    }
}

impl PendingConnection {
    /// Milliseconds since the request was last sent.
    pub fn time_since_last_request(&self, now_ms: u64) -> (d: u64)
        requires
            now_ms >= self.last_sent_ms,
        ensures
            d == now_ms - self.last_sent_ms,
    {
        now_ms - self.last_sent_ms
    }

    /// Drive the pending connection: fail it once nothing has happened for a
    /// whole timeout; resend the identical request once the retry interval
    /// has passed; otherwise do nothing.
    pub fn sync(&mut self, now_ms: u64) -> (r: Result<Option<Vec<u8>>, PendingConnectionError>)
        requires
            old(self).config.spec_wf(),
            old(self).payload@.len() <= old(self).config.spec_max_payload(),
        ensures
            match r {
                Ok(Some(d)) => {
                    &&& now_ms < old(self).last_communication_ms + old(self).config.timeout_ms
                    &&& now_ms >= old(self).last_sent_ms + old(self).config.handshake_retry_interval_ms
                    &&& d@ == spec_request_datagram(
                        old(self).config,
                        old(self).handshake_nonce,
                        old(self).payload@,
                    )
                    &&& *final(self) == (PendingConnection { last_sent_ms: now_ms, ..*old(self) })
                },
                Ok(None) => {
                    &&& now_ms < old(self).last_communication_ms + old(self).config.timeout_ms
                    &&& now_ms < old(self).last_sent_ms + old(self).config.handshake_retry_interval_ms
                    &&& *final(self) == *old(self)
                },
                Err(PendingConnectionError::TimedOut) => {
                    &&& now_ms >= old(self).last_communication_ms + old(self).config.timeout_ms
                    &&& *final(self) == *old(self)
                },
                Err(_) => false,
            },
    {
        if now_ms >= self.last_communication_ms && now_ms - self.last_communication_ms
            >= self.config.timeout_ms {
            return Err(PendingConnectionError::TimedOut);
        }
        if now_ms >= self.last_sent_ms && now_ms - self.last_sent_ms
            >= self.config.handshake_retry_interval_ms {
            let header = PacketHeader {
                connection_id: 0,
                packet_index: 0,
                ack_index: 0,
                ack_mask: 0,
                flags: FLAG_REQUEST_CONNECTION,
                prelude: self.handshake_nonce,
                payload_length: self.payload.len() as u16,
            };
            let datagram = build_datagram(
                self.config.hash_key,
                self.config.max_datagram_length,
                &header,
                self.payload.as_slice(),
            );
            self.last_sent_ms = now_ms;
            Ok(Some(datagram))
        } else {
            proof {
                if now_ms >= old(self).last_sent_ms + old(self).config.handshake_retry_interval_ms {
                    assert(false);
                }
            }
            Ok(None)
        }
    }

    /// Consume the replies received on connection id 0 and attempt to promote
    /// this pending connection: the first accept matching our nonce opens the
    /// connection under the id its payload assigns, a matching reject fails
    /// it, and with neither the pending connection is handed back.
    pub fn try_promote(self, replies: &Vec<(PacketHeader, Vec<u8>)>, now_ms: u64) -> (r: Result<
        Connection,
        PendingConnectionError,
    >)
        requires
            self.config.spec_wf(),
        ensures
            match spec_handshake_reply(replies@, self.handshake_nonce) {
                HandshakeReply::Accepted(id) => match r {
                    Ok(c) => {
                        &&& c.spec_wf()
                        &&& c.connection_id == id
                        &&& c.remote_connection_id == id
                        &&& c.config == self.config
                        &&& c.status is Open
                        &&& c.last_recv_ms == now_ms
                        &&& c.tracker.records@.len() == 0
                        &&& c.parcel_inbox@.len() == 0
                        &&& c.outgoing@.len() == 0
                    },
                    Err(_) => false,
                },
                HandshakeReply::Refused => r matches Err(PendingConnectionError::Rejected),
                HandshakeReply::NoReply => match r {
                    Err(PendingConnectionError::Pending(p)) => p == self,
                    _ => false,
                },
            },
    {
        let n = replies.len();
        let mut i: usize = 0;
        proof {
            assert(replies@.skip(0) =~= replies@);
        }
        while i < n
            invariant
                0 <= i <= n,
                n == replies@.len(),
                self.config.spec_wf(),
                spec_handshake_reply(replies@, self.handshake_nonce) == spec_handshake_reply(
                    replies@.skip(i as int),
                    self.handshake_nonce,
                ),
                forall|k: int|
                    0 <= k < i ==> !spec_is_accept(
                        (#[trigger] replies@[k]).0,
                        replies@[k].1@,
                        self.handshake_nonce,
                    ) && !spec_is_reject(replies@[k].0, self.handshake_nonce),
            decreases n - i,
        {
            let header = &replies[i].0;
            let payload = &replies[i].1;
            proof {
                assert(replies@.skip(i as int)[0] == replies@[i as int]);
            }
            if header.flags & FLAG_ACCEPT_CONNECTION != 0 && header.prelude
                == self.handshake_nonce && payload.len() >= 4 {
                let id = vstd::bytes::u32_from_le_bytes(
                    vstd::slice::slice_subrange(payload.as_slice(), 0, 4),
                );
                if id != 0 {
                    return Ok(Connection::opened(id, id, self.config, now_ms));
                }
            }
            if header.flags & FLAG_REJECT_CONNECTION != 0 && header.prelude
                == self.handshake_nonce {
                return Err(PendingConnectionError::Rejected);
            }
            i = i + 1;
            proof {
                assert(replies@.skip(i - 1).skip(1) =~= replies@.skip(i as int));
            }
        }
        proof {
            assert(replies@.skip(n as int) =~= Seq::<(PacketHeader, Vec<u8>)>::empty());
        }
        Err(PendingConnectionError::Pending(self))
    }
}

/// The accept datagram a responder sends: handshake id 0, the initiator's
/// nonce in the prelude, and the assigned connection id as the payload.
pub open spec fn spec_accept_datagram(
    config: ConnectionConfig,
    nonce: u32,
    assigned_id: u32,
) -> Seq<u8> {
    spec_datagram(
        config.hash_key,
        config.max_datagram_length as int,
        PacketHeader {
            connection_id: 0,
            packet_index: 0,
            ack_index: 0,
            ack_mask: 0,
            flags: FLAG_ACCEPT_CONNECTION,
            prelude: nonce,
            payload_length: 4,
        },
        vstd::bytes::spec_u32_to_le_bytes(assigned_id),
    )
}

/// Frame the responder's accept: it assigns `assigned_id` to the connection
/// whose request carried `nonce`.
pub fn make_accept_datagram(config: &ConnectionConfig, nonce: u32, assigned_id: u32) -> (d: Vec<u8>)
    requires
        config.spec_wf(),
        config.spec_max_payload() >= 4,
        assigned_id != 0,
    ensures
        d@ == spec_accept_datagram(*config, nonce, assigned_id),
{
    let header = PacketHeader {
        connection_id: 0,
        packet_index: 0,
        ack_index: 0,
        ack_mask: 0,
        flags: FLAG_ACCEPT_CONNECTION,
        prelude: nonce,
        payload_length: 4,
    };
    let payload = vstd::bytes::u32_to_le_bytes(assigned_id);
    build_datagram(config.hash_key, config.max_datagram_length, &header, payload.as_slice())
}

/// The reject datagram a responder sends back for the request carrying
/// `nonce`; no state is allocated.
pub open spec fn spec_reject_datagram(config: ConnectionConfig, nonce: u32) -> Seq<u8> {
    spec_datagram(
        config.hash_key,
        config.max_datagram_length as int,
        PacketHeader {
            connection_id: 0,
            packet_index: 0,
            ack_index: 0,
            ack_mask: 0,
            flags: FLAG_REJECT_CONNECTION,
            prelude: nonce,
            payload_length: 0,
        },
        Seq::empty(),
    )
}

/// Frame the responder's reject for the request carrying `nonce`.
pub fn make_reject_datagram(config: &ConnectionConfig, nonce: u32) -> (d: Vec<u8>)
    requires
        config.spec_wf(),
    ensures
        d@ == spec_reject_datagram(*config, nonce),
{
    let header = PacketHeader {
        connection_id: 0,
        packet_index: 0,
        ack_index: 0,
        ack_mask: 0,
        flags: FLAG_REJECT_CONNECTION,
        prelude: nonce,
        payload_length: 0,
    };
    let payload: Vec<u8> = Vec::new();
    let d = build_datagram(config.hash_key, config.max_datagram_length, &header, payload.as_slice());
    proof {
        assert(payload@ =~= Seq::<u8>::empty());
    }
    d
}

/// The length of the stream chunk cut at `start`: a full payload, or what
/// remains of the history.
pub open spec fn spec_chunk_len(c: Connection, start: int) -> int {
    if c.outbox.history@.len() - start < c.config.spec_max_payload() {
        c.outbox.history@.len() - start
    } else {
        c.config.spec_max_payload()
    }
}

/// The header of the stream chunk cut at `start` and sent under index `idx`.
pub open spec fn spec_chunk_header(c: Connection, idx: u16, start: int) -> PacketHeader {
    PacketHeader {
        connection_id: c.remote_connection_id,
        packet_index: idx,
        ack_index: c.window.ack_index,
        ack_mask: c.window.ack_mask,
        flags: if c.window.started {
            (FLAG_CARRIES_STREAM | FLAG_SYNCHRONIZED) as u8
        } else {
            FLAG_CARRIES_STREAM
        },
        prelude: (start % 0x1_0000_0000) as u32,
        payload_length: spec_chunk_len(c, start) as u16,
    }
}

/// `datagrams` are exactly the stream chunks of `c`'s history from `start`
/// to `end`, in order, under consecutive packet indices from `idx0`: each one
/// full-sized until the history runs out.
pub open spec fn spec_stream_chunks_tile(
    c: Connection,
    idx0: u16,
    start: int,
    end: int,
    datagrams: Seq<Vec<u8>>,
) -> bool
    decreases datagrams.len(),
{
    if datagrams.len() == 0 {
        start == end
    } else {
        let len = spec_chunk_len(c, start);
        &&& start < c.outbox.history@.len()
        &&& datagrams[0]@ == spec_datagram(
            c.config.hash_key,
            c.config.max_datagram_length as int,
            spec_chunk_header(c, idx0, start),
            c.outbox.history@.subrange(start, start + len),
        )
        &&& spec_stream_chunks_tile(c, spec_wrap_inc(idx0), start + len, end, datagrams.skip(1))
    }
}

/// The index `n` allocations after `i` in the wrapping sequence space.
pub open spec fn spec_wrap_add(i: u16, n: nat) -> u16
    decreases n,
{
    if n == 0 {
        i
    } else {
        spec_wrap_inc(spec_wrap_add(i, (n - 1) as nat))
    }
}

/// A tiling extends by one chunk cut exactly at its end.
proof fn lemma_tile_snoc(
    c: Connection,
    idx0: u16,
    start: int,
    end: int,
    datagrams: Seq<Vec<u8>>,
    d: Vec<u8>,
)
    requires
        spec_stream_chunks_tile(c, idx0, start, end, datagrams),
        end < c.outbox.history@.len(),
        d@ == spec_datagram(
            c.config.hash_key,
            c.config.max_datagram_length as int,
            spec_chunk_header(c, spec_wrap_add(idx0, datagrams.len() as nat), end),
            c.outbox.history@.subrange(end, end + spec_chunk_len(c, end)),
        ),
    ensures
        spec_stream_chunks_tile(c, idx0, start, end + spec_chunk_len(c, end), datagrams.push(d)),
    decreases datagrams.len(),
{
    if datagrams.len() == 0 {
        assert(start == end);
        let one = datagrams.push(d);
        assert(one[0] == d);
        assert(spec_wrap_add(idx0, 0nat) == idx0);
        assert(one.skip(1) =~= Seq::<Vec<u8>>::empty());
        let len = spec_chunk_len(c, end);
        assert(spec_stream_chunks_tile(c, spec_wrap_inc(idx0), end + len, end + len, one.skip(1)));
        assert(spec_stream_chunks_tile(c, idx0, start, end + len, one));
    } else {
        let len0 = spec_chunk_len(c, start);
        assert(datagrams.push(d).skip(1) =~= datagrams.skip(1).push(d));
        assert(spec_wrap_add(spec_wrap_inc(idx0), (datagrams.len() - 1) as nat) == spec_wrap_add(
            idx0,
            datagrams.len() as nat,
        )) by {
            lemma_wrap_add_shift(idx0, datagrams.len() as nat);
        }
        lemma_tile_snoc(c, spec_wrap_inc(idx0), start + len0, end, datagrams.skip(1), d);
        assert(datagrams.push(d)[0] == datagrams[0]);
    }
}

proof fn lemma_wrap_add_shift(i: u16, n: nat)
    requires
        n > 0,
    ensures
        spec_wrap_add(spec_wrap_inc(i), (n - 1) as nat) == spec_wrap_add(i, n),
    decreases n,
{
    if n == 1 {
        assert(spec_wrap_add(i, 0nat) == i);
        assert(spec_wrap_add(spec_wrap_inc(i), 0nat) == spec_wrap_inc(i));
        assert(spec_wrap_add(i, 1nat) == spec_wrap_inc(spec_wrap_add(i, 0nat)));
    } else {
        lemma_wrap_add_shift(i, (n - 1) as nat);
        assert(spec_wrap_add(spec_wrap_inc(i), (n - 1) as nat) == spec_wrap_inc(
            spec_wrap_add(spec_wrap_inc(i), (n - 2) as nat),
        ));
        assert(spec_wrap_add(i, n) == spec_wrap_inc(spec_wrap_add(i, (n - 1) as nat)));
    }
}

/// A sent record is a genuine stream chunk: its payload is a slice of the
/// stream history whose low offset bits are its prelude.
pub open spec fn spec_record_is_stream_chunk(c: Connection, r: SentRecord) -> bool {
    &&& r.flags & FLAG_CARRIES_STREAM != 0
    &&& exists|off: int|
        {
            &&& 0 <= off
            &&& off + r.payload@.len() <= c.outbox.history@.len()
            &&& r.payload@ == c.outbox.history@.subrange(off, off + r.payload@.len())
            &&& r.prelude == #[trigger] (off % 0x1_0000_0000)
        }
}

/// Record `r` was resent: some datagram at or after position `from` of the
/// outgoing queue is its resend datagram.
pub open spec fn spec_resent_in(
    c: Connection,
    r: SentRecord,
    outgoing: Seq<Vec<u8>>,
    from: int,
) -> bool {
    exists|d: int|
        from <= d < outgoing.len() && (#[trigger] outgoing[d])@ == spec_resend_datagram(c, r)
}

/// Whether datagram `d` resends some record of `c` that is due at `now_ms`.
pub open spec fn spec_is_due_resend(c: Connection, now_ms: u64, d: Vec<u8>) -> bool {
    exists|i: int|
        {
            &&& 0 <= i < c.tracker.records@.len()
            &&& spec_record_due(c, #[trigger] c.tracker.records@[i], now_ms)
            &&& d@ == spec_resend_datagram(c, c.tracker.records@[i])
        }
}

impl Connection {
    /// Pack everything waiting in the stream outbox into reliable packets and
    /// hand out all queued datagrams, oldest first, for the caller to send:
    /// first what earlier calls queued, then the stream chunks of the whole
    /// unsent history, in order, each full-sized until the history runs out.
    pub fn flush(&mut self, now_ms: u64) -> (r: Result<Vec<Vec<u8>>, ConnectionError>)
        requires
            old(self).spec_wf(),
            old(self).outbox.buffer@.len() <= old(self).tracker.spec_allocations_left() * old(
                self,
            ).config.spec_max_payload(),
        ensures
            final(self).spec_wf(),
            ({
                let st = spec_status_after_poll(*old(self), now_ms);
                let polled = Connection { status: st, ..*old(self) };
                match r {
                    Ok(ds) => {
                        &&& st is Open
                        &&& ds@.len() >= old(self).outgoing@.len()
                        &&& forall|j: int|
                            0 <= j < old(self).outgoing@.len() ==> ds@[j] == old(self).outgoing@[j]
                        &&& spec_stream_chunks_tile(
                            polled,
                            old(self).tracker.next_index,
                            old(self).outbox.send_offset as int,
                            old(self).outbox.history@.len() as int,
                            ds@.skip(old(self).outgoing@.len() as int),
                        )
                        &&& final(self).outgoing@.len() == 0
                        &&& final(self).outbox.history@ == old(self).outbox.history@
                        &&& final(self).outbox.send_offset == old(self).outbox.history@.len()
                        &&& final(self).outbox.buffer@.len() == 0
                        &&& final(self).status == st
                        &&& final(self).connection_id == old(self).connection_id
                        &&& final(self).remote_connection_id == old(self).remote_connection_id
                        &&& final(self).config == old(self).config
                        &&& final(self).window == old(self).window
                        &&& final(self).parcel_inbox@ == old(self).parcel_inbox@
                        &&& final(self).assembler == old(self).assembler
                        &&& final(self).last_recv_ms == old(self).last_recv_ms
                        &&& final(self).tracker.records@.len() >= old(self).tracker.records@.len()
                        &&& forall|j: int|
                            0 <= j < old(self).tracker.records@.len() ==> final(self).tracker.records@[j] == old(self).tracker.records@[j]
                        &&& forall|j: int|
                            old(self).tracker.records@.len() <= j < final(self).tracker.records@.len() ==> spec_record_is_stream_chunk(
                                polled,
                                #[trigger] final(self).tracker.records@[j],
                            )
                    },
                    Err(ConnectionError::ConnectionLost) => st is Lost && *final(self) == polled,
                    Err(ConnectionError::ConnectionClosed) => st is Closed && *final(self)
                        == polled,
                    Err(_) => false,
                }
            }),
    {
        match self.guard(now_ms) {
            Ok(()) => (),
            Err(e) => {
                return Err(e);
            },
        }
        let ghost polled = *self;
        let ghost base_out = self.outgoing@.len() as int;
        let ghost base_rec = self.tracker.records@.len() as int;
        let ghost mut emitted: int = 0;
        let max_payload = self.config.max_payload();
        while self.outbox.buffer.len() > 0
            invariant
                self.spec_wf(),
                self.config == polled.config,
                self.connection_id == polled.connection_id,
                self.remote_connection_id == polled.remote_connection_id,
                self.status == polled.status,
                self.window == polled.window,
                self.parcel_inbox@ == polled.parcel_inbox@,
                self.assembler == polled.assembler,
                self.last_recv_ms == polled.last_recv_ms,
                self.outbox.history == polled.outbox.history,
                max_payload as int == polled.config.spec_max_payload(),
                base_out == polled.outgoing@.len(),
                base_rec == polled.tracker.records@.len(),
                self.outgoing@.len() == base_out + emitted,
                emitted >= 0,
                forall|j: int| 0 <= j < base_out ==> self.outgoing@[j] == polled.outgoing@[j],
                self.tracker.next_index == spec_wrap_add(
                    polled.tracker.next_index,
                    emitted as nat,
                ),
                self.tracker.records@.len() == base_rec + emitted,
                forall|j: int|
                    0 <= j < base_rec ==> self.tracker.records@[j] == polled.tracker.records@[j],
                forall|j: int|
                    base_rec <= j < self.tracker.records@.len() ==> spec_record_is_stream_chunk(
                        polled,
                        #[trigger] self.tracker.records@[j],
                    ),
                spec_stream_chunks_tile(
                    polled,
                    polled.tracker.next_index,
                    polled.outbox.send_offset as int,
                    self.outbox.send_offset as int,
                    self.outgoing@.skip(base_out),
                ),
                self.outbox.buffer@.len() <= self.tracker.spec_allocations_left() * (
                max_payload as int),
            decreases self.outbox.buffer@.len(),
        {
            proof {
                let left = self.tracker.spec_allocations_left();
                let buf = self.outbox.buffer@.len() as int;
                let mp = max_payload as int;
                assert(left >= 1) by (nonlinear_arith)
                    requires
                        buf >= 1,
                        buf <= left * mp,
                        mp >= 1,
                ;
            }
            let ghost pre_iter = *self;
            let ghost left_pre = self.tracker.spec_allocations_left();
            let ghost buf_pre = self.outbox.buffer@.len() as int;
            let (off, chunk) = self.outbox.next_chunk(max_payload);
            proof {
                assert(spec_chunk_len(polled, off as int) == chunk@.len());
            }
            let prelude = (off % 0x1_0000_0000u64) as u32;
            let ghost chunk_bytes = chunk@;
            self.send_reliable(FLAG_CARRIES_STREAM, prelude, chunk, now_ms);
            proof {
                let mp = max_payload as int;
                assert(self.outbox.buffer@.len() as int <= (left_pre - 1) * mp) by (nonlinear_arith)
                    requires
                        buf_pre <= left_pre * mp,
                        mp >= 1,
                        self.outbox.buffer@.len() as int == if buf_pre >= mp {
                            buf_pre - mp
                        } else {
                            0int
                        },
                        left_pre >= 1,
                ;
                assert(self.tracker.spec_allocations_left() == left_pre - 1);
                emitted = emitted + 1;
                let rec = self.tracker.records@.last();
                assert(spec_record_is_stream_chunk(polled, rec)) by {
                    assert(((0x20u8 | 0x40u8) & 0x20u8) != 0) by (bit_vector);
                    assert((0x20u8 & 0x20u8) != 0) by (bit_vector);
                    assert(rec.flags & FLAG_CARRIES_STREAM != 0);
                    assert(rec.payload@ == chunk_bytes);
                    let off_w = off as int;
                    assert(off % 0x1_0000_0000u64 < 0x1_0000_0000u64);
                    assert(prelude as int == off_w % 0x1_0000_0000);
                    assert(0 <= off_w && off_w + rec.payload@.len()
                        <= polled.outbox.history@.len() && rec.payload@
                        == polled.outbox.history@.subrange(off_w, off_w + rec.payload@.len())
                        && rec.prelude == off_w % 0x1_0000_0000);
                }
                let d = self.outgoing@.last();
                assert(d@ == spec_datagram(
                    polled.config.hash_key,
                    polled.config.max_datagram_length as int,
                    spec_chunk_header(
                        polled,
                        spec_wrap_add(polled.tracker.next_index, (emitted - 1) as nat),
                        off as int,
                    ),
                    polled.outbox.history@.subrange(
                        off as int,
                        off as int + spec_chunk_len(polled, off as int),
                    ),
                ));
                lemma_tile_snoc(
                    polled,
                    polled.tracker.next_index,
                    polled.outbox.send_offset as int,
                    off as int,
                    pre_iter.outgoing@.skip(base_out),
                    d,
                );
                assert(self.outgoing@.skip(base_out) =~= pre_iter.outgoing@.skip(base_out).push(
                    d,
                ));
            }
        }
        let ghost pre_split = self.outgoing@;
        let out = self.outgoing.split_off(0);
        proof {
            assert(self.outgoing@ =~= Seq::<Vec<u8>>::empty());
            assert(out@ =~= pre_split);
            assert(out@.skip(base_out) == pre_split.skip(base_out));
            assert(self.outbox.send_offset as int == polled.outbox.history@.len());
            assert(spec_stream_chunks_tile(
                polled,
                polled.tracker.next_index,
                polled.outbox.send_offset as int,
                polled.outbox.history@.len() as int,
                out@.skip(base_out),
            ));
        }
        Ok(out)
    }

    /// Retransmission scan. If some unacknowledged packet is due and has
    /// exhausted its retries, the connection turns lost and nothing is
    /// resent; otherwise every due packet is rebuilt under its original index
    /// with refreshed ack fields and queued again.
    pub fn tick(&mut self, now_ms: u64)
        requires
            old(self).spec_wf(),
        ensures
            final(self).spec_wf(),
            ({
                let st = spec_status_after_poll(*old(self), now_ms);
                let polled = Connection { status: st, ..*old(self) };
                &&& (!(st is Open) ==> *final(self) == polled)
                &&& (st is Open && spec_retry_exhausted(polled, now_ms) ==> *final(self)
                    == (Connection { status: ConnectionStatus::Lost, ..polled }))
                &&& (st is Open && !spec_retry_exhausted(polled, now_ms) ==> {
                    &&& final(self).status is Open
                    &&& final(self).connection_id == old(self).connection_id
                    &&& final(self).remote_connection_id == old(self).remote_connection_id
                    &&& final(self).config == old(self).config
                    &&& final(self).window == old(self).window
                    &&& final(self).parcel_inbox@ == old(self).parcel_inbox@
                    &&& final(self).assembler == old(self).assembler
                    &&& final(self).outbox == old(self).outbox
                    &&& final(self).last_recv_ms == old(self).last_recv_ms
                    &&& final(self).tracker.next_index == old(self).tracker.next_index
                    &&& final(self).tracker.records@.len() == old(self).tracker.records@.len()
                    &&& forall|j: int|
                        0 <= j < old(self).tracker.records@.len() ==> {
                            let pre = old(self).tracker.records@[j];
                            let post = #[trigger] final(self).tracker.records@[j];
                            &&& post.index == pre.index
                            &&& post.flags == pre.flags
                            &&& post.prelude == pre.prelude
                            &&& post.payload@ == pre.payload@
                            &&& (spec_record_due(polled, pre, now_ms) ==> post.send_time_ms
                                == now_ms && post.retransmits == pre.retransmits + 1)
                            &&& (!spec_record_due(polled, pre, now_ms) ==> post == pre)
                        }
                    &&& final(self).outgoing@.len() >= old(self).outgoing@.len()
                    &&& forall|j: int|
                        0 <= j < old(self).outgoing@.len() ==> final(self).outgoing@[j] == old(self).outgoing@[j]
                    &&& forall|d: int|
                        old(self).outgoing@.len() <= d < final(self).outgoing@.len()
                            ==> spec_is_due_resend(
                            polled,
                            now_ms,
                            #[trigger] final(self).outgoing@[d],
                        )
                    // Every due record's rebuilt datagram is queued: the due
                    // packets really are resent, not merely permitted.
                    &&& forall|j: int|
                        0 <= j < old(self).tracker.records@.len() && spec_record_due(
                            polled,
                            #[trigger] old(self).tracker.records@[j],
                            now_ms,
                        ) ==> spec_resent_in(
                            polled,
                            old(self).tracker.records@[j],
                            final(self).outgoing@,
                            old(self).outgoing@.len() as int,
                        )
                })
            }),
    {
        self.poll(now_ms);
        if !(self.status == ConnectionStatus::Open) {
            return ;
        }
        let ghost polled = *self;
        // First pass: a due record beyond its retries loses the connection.
        let n = self.tracker.records.len();
        let mut j: usize = 0;
        while j < n
            invariant
                0 <= j <= n,
                n == self.tracker.records@.len(),
                *self == polled,
                polled == (Connection {
                    status: spec_status_after_poll(*old(self), now_ms),
                    ..*old(self)
                }),
                spec_status_after_poll(*old(self), now_ms) is Open,
                polled.spec_wf(),
                forall|i: int|
                    0 <= i < j ==> !(spec_record_due(
                        polled,
                        #[trigger] polled.tracker.records@[i],
                        now_ms,
                    ) && polled.tracker.records@[i].retransmits >= polled.config.max_retries),
            decreases n - j,
        {
            let send_time = self.tracker.records[j].send_time_ms;
            let retransmits = self.tracker.records[j].retransmits;
            let rto = compute_rto(&self.config, retransmits);
            if now_ms > send_time && now_ms - send_time > rto {
                if retransmits >= self.config.max_retries {
                    self.status = ConnectionStatus::Lost;
                    proof {
                        assert(spec_record_due(polled, polled.tracker.records@[j as int], now_ms));
                        assert(spec_retry_exhausted(polled, now_ms));
                    }
                    return ;
                }
            }
            j = j + 1;
        }
        proof {
            assert(!spec_retry_exhausted(polled, now_ms));
        }
        // Second pass: resend every due record.
        let ghost base_out = self.outgoing@.len() as int;
        let mut j: usize = 0;
        while j < n
            invariant
                0 <= j <= n,
                n == self.tracker.records@.len(),
                polled == (Connection {
                    status: spec_status_after_poll(*old(self), now_ms),
                    ..*old(self)
                }),
                spec_status_after_poll(*old(self), now_ms) is Open,
                polled.spec_wf(),
                self.spec_wf(),
                self.config == polled.config,
                self.connection_id == polled.connection_id,
                self.remote_connection_id == polled.remote_connection_id,
                self.status == polled.status,
                self.status is Open,
                self.window == polled.window,
                self.parcel_inbox@ == polled.parcel_inbox@,
                self.assembler == polled.assembler,
                self.outbox == polled.outbox,
                self.last_recv_ms == polled.last_recv_ms,
                self.tracker.next_index == polled.tracker.next_index,
                self.tracker.records@.len() == polled.tracker.records@.len(),
                forall|i: int|
                    0 <= i < n ==> !(spec_record_due(
                        polled,
                        #[trigger] polled.tracker.records@[i],
                        now_ms,
                    ) && polled.tracker.records@[i].retransmits >= polled.config.max_retries),
                forall|i: int|
                    0 <= i < n ==> {
                        let pre = polled.tracker.records@[i];
                        let post = #[trigger] self.tracker.records@[i];
                        &&& post.index == pre.index
                        &&& post.flags == pre.flags
                        &&& post.prelude == pre.prelude
                        &&& post.payload@ == pre.payload@
                    },
                forall|i: int|
                    0 <= i < j ==> {
                        let pre = polled.tracker.records@[i];
                        let post = #[trigger] self.tracker.records@[i];
                        &&& (spec_record_due(polled, pre, now_ms) ==> post.send_time_ms == now_ms
                            && post.retransmits == pre.retransmits + 1)
                        &&& (!spec_record_due(polled, pre, now_ms) ==> post == pre)
                    },
                forall|i: int|
                    j <= i < n ==> #[trigger] self.tracker.records@[i]
                        == polled.tracker.records@[i],
                base_out == polled.outgoing@.len(),
                self.outgoing@.len() >= base_out,
                forall|i: int| 0 <= i < base_out ==> self.outgoing@[i] == polled.outgoing@[i],
                forall|d: int|
                    base_out <= d < self.outgoing@.len() ==> spec_is_due_resend(
                        polled,
                        now_ms,
                        #[trigger] self.outgoing@[d],
                    ),
                forall|i: int|
                    0 <= i < j && spec_record_due(
                        polled,
                        #[trigger] polled.tracker.records@[i],
                        now_ms,
                    ) ==> spec_resent_in(
                        polled,
                        polled.tracker.records@[i],
                        self.outgoing@,
                        base_out,
                    ),
            decreases n - j,
        {
            let send_time = self.tracker.records[j].send_time_ms;
            let retransmits = self.tracker.records[j].retransmits;
            let rto = compute_rto(&self.config, retransmits);
            if now_ms > send_time && now_ms - send_time > rto {
                let idx = self.tracker.records[j].index;
                let record_flags = self.tracker.records[j].flags;
                let prelude = self.tracker.records[j].prelude;
                let wire_flags = if self.window.started {
                    record_flags | FLAG_SYNCHRONIZED
                } else {
                    record_flags
                };
                let header = PacketHeader {
                    connection_id: self.remote_connection_id,
                    packet_index: idx,
                    ack_index: self.window.ack_index,
                    ack_mask: self.window.ack_mask,
                    flags: wire_flags,
                    prelude,
                    payload_length: self.tracker.records[j].payload.len() as u16,
                };
                let d = build_datagram(
                    self.config.hash_key,
                    self.config.max_datagram_length,
                    &header,
                    self.tracker.records[j].payload.as_slice(),
                );
                let ghost pre_push = self.outgoing@;
                let ghost d_view = d@;
                let ghost tr_pre = self.tracker;
                self.outgoing.push(d);
                self.tracker.mark_retransmitted(j, now_ms);
                proof {
                    assert forall|a: int| 0 <= a < self.tracker.records@.len() implies
                        #[trigger] self.tracker.spec_index_age(a) == tr_pre.spec_index_age(a) by {
                        assert(self.tracker.records@[a].index == tr_pre.records@[a].index);
                    }
                    assert(self.tracker.spec_indices_wf());
                    assert(spec_record_due(polled, polled.tracker.records@[j as int], now_ms));
                    assert((self.outgoing@.last())@ == spec_resend_datagram(
                        polled,
                        polled.tracker.records@[j as int],
                    ));
                    assert(spec_is_due_resend(polled, now_ms, self.outgoing@.last()));
                    assert forall|d2: int| base_out <= d2 < self.outgoing@.len() implies
                        spec_is_due_resend(polled, now_ms, #[trigger] self.outgoing@[d2]) by {
                        if d2 < self.outgoing@.len() - 1 {
                            assert(self.outgoing@[d2] == pre_push[d2]);
                        } else {
                            assert(self.outgoing@[d2] == self.outgoing@.last());
                        }
                    }
                    assert(self.outgoing@[self.outgoing@.len() - 1]@ == spec_resend_datagram(
                        polled,
                        polled.tracker.records@[j as int],
                    ));
                    assert(spec_resent_in(
                        polled,
                        polled.tracker.records@[j as int],
                        self.outgoing@,
                        base_out,
                    ));
                    assert forall|i: int|
                        0 <= i < j && spec_record_due(
                            polled,
                            #[trigger] polled.tracker.records@[i],
                            now_ms,
                        ) implies spec_resent_in(
                        polled,
                        polled.tracker.records@[i],
                        self.outgoing@,
                        base_out,
                    ) by {
                        let rec = polled.tracker.records@[i];
                        assert(spec_resent_in(polled, rec, pre_push, base_out));
                        let d0 = choose|d0: int|
                            base_out <= d0 < pre_push.len() && (#[trigger] pre_push[d0])@
                                == spec_resend_datagram(polled, rec);
                        assert(self.outgoing@[d0] == pre_push[d0]);
                        assert(spec_resent_in(polled, rec, self.outgoing@, base_out));
                    }
                }
            }
            j = j + 1;
        }
    }
}

/// Retransmit removal, end to end: once ack fields cover an index, no record
/// pruned against them still carries it, and every datagram a later
/// retransmission scan emits therefore decodes to a different index.
pub proof fn lemma_acked_index_never_resent(c: Connection, now_ms: u64, d: Vec<u8>, i: u16)
    requires
        c.spec_wf(),
        spec_is_due_resend(c, now_ms, d),
        forall|j: int|
            0 <= j < c.tracker.records@.len() ==> (#[trigger] c.tracker.records@[j]).index != i,
    ensures
        crate::packet::spec_read_header(d@).packet_index != i,
{
    let j = choose|j: int|
        {
            &&& 0 <= j < c.tracker.records@.len()
            &&& spec_record_due(c, #[trigger] c.tracker.records@[j], now_ms)
            &&& d@ == spec_resend_datagram(c, c.tracker.records@[j])
        };
    let r = c.tracker.records@[j];
    let hdr = PacketHeader {
        connection_id: c.remote_connection_id,
        packet_index: r.index,
        ack_index: c.window.ack_index,
        ack_mask: c.window.ack_mask,
        flags: if c.window.started {
            (r.flags | FLAG_SYNCHRONIZED) as u8
        } else {
            r.flags
        },
        prelude: r.prelude,
        payload_length: r.payload@.len() as u16,
    };
    crate::packet::lemma_datagram_round_trip(
        c.config.hash_key,
        c.config.max_datagram_length as int,
        hdr,
        r.payload@,
    );
}

impl PartialEq for Connection {
    /// Two connection values denote the same link when they agree on both
    /// connection ids.
    fn eq(&self, other: &Self) -> (r: bool) {
        self.connection_id == other.connection_id && self.remote_connection_id
            == other.remote_connection_id
    }
}

impl vstd::std_specs::cmp::PartialEqSpecImpl for Connection {
    open spec fn obeys_eq_spec() -> bool {
        true
    }

    open spec fn eq_spec(&self, other: &Self) -> bool {
        self.connection_id == other.connection_id && self.remote_connection_id
            == other.remote_connection_id
    }
}

} // verus!
