//! Packet framing: a fixed-layout little-endian header, an opaque payload,
//! zero padding up to the datagram size, and a trailing keyed integrity hash.

use vstd::prelude::*;
use vstd::bytes::*;

use crate::hash::compute_hash;
use crate::hash::keyed_hash;
use crate::hash::lemma_hash_detects_byte_change;

verus! {

/// Size in bytes of the fixed packet header.
pub const HEADER_SIZE: usize = 23;

/// Size in bytes of the trailing keyed hash.
pub const HASH_SIZE: usize = 8;

/// Flag bit: packet requests a new connection (handshake, connection id 0).
pub const FLAG_REQUEST_CONNECTION: u8 = 0x01;

/// Flag bit: packet accepts a requested connection.
pub const FLAG_ACCEPT_CONNECTION: u8 = 0x02;

/// Flag bit: packet rejects a requested connection.
pub const FLAG_REJECT_CONNECTION: u8 = 0x04;

/// Flag bit: packet carries no channel data, only liveness and acks.
pub const FLAG_KEEPALIVE: u8 = 0x08;

/// Flag bit: the payload is one byte-serialized parcel.
pub const FLAG_CARRIES_PARCEL: u8 = 0x10;

/// Flag bit: the payload is a chunk of the ordered byte stream.
pub const FLAG_CARRIES_STREAM: u8 = 0x20;

/// Flag bit: the sender considers the connection synchronized.
pub const FLAG_SYNCHRONIZED: u8 = 0x40;

/// Flag bit: the sender has closed the connection.
pub const FLAG_CLOSE: u8 = 0x80;

/// The fixed packet header. All multi-byte fields travel little-endian.
#[derive(Clone, Copy, Debug, PartialEq, Eq, Structural)]
pub struct PacketHeader {
    /// The recipient's identifier for this virtual connection; 0 is reserved
    /// for handshake traffic.
    pub connection_id: u32,
    /// Wrapping per-connection sender sequence number.
    pub packet_index: u16,
    /// Highest packet index observed from the peer.
    pub ack_index: u16,
    /// Bit i set iff packet `ack_index - (i+1)` (wrapping) was received.
    pub ack_mask: u64,
    /// Flag bit set; see the `FLAG_` constants.
    pub flags: u8,
    /// Payload-kind tag, handshake nonce, or low stream offset bits,
    /// depending on the flags.
    pub prelude: u32,
    /// Number of meaningful payload bytes following the header.
    pub payload_length: u16,
}

/// The byte encoding of a header: each field in order, little-endian.
pub open spec fn spec_header_bytes(h: PacketHeader) -> Seq<u8> {
    spec_u32_to_le_bytes(h.connection_id) + spec_u16_to_le_bytes(h.packet_index)
        + spec_u16_to_le_bytes(h.ack_index) + spec_u64_to_le_bytes(h.ack_mask) + seq![h.flags]
        + spec_u32_to_le_bytes(h.prelude) + spec_u16_to_le_bytes(h.payload_length)
}

/// The header a 23-byte (or longer) buffer starts with.
pub open spec fn spec_read_header(s: Seq<u8>) -> PacketHeader
    recommends
        s.len() >= HEADER_SIZE,
{
    PacketHeader {
        connection_id: spec_u32_from_le_bytes(s.subrange(0, 4)),
        packet_index: spec_u16_from_le_bytes(s.subrange(4, 6)),
        ack_index: spec_u16_from_le_bytes(s.subrange(6, 8)),
        ack_mask: spec_u64_from_le_bytes(s.subrange(8, 16)),
        flags: s[16],
        prelude: spec_u32_from_le_bytes(s.subrange(17, 21)),
        payload_length: spec_u16_from_le_bytes(s.subrange(21, 23)),
    }
}

/// Encode a header into its 23-byte wire form.
pub fn write_header(h: &PacketHeader) -> (out: Vec<u8>)
    ensures
        out@ == spec_header_bytes(*h),
        out@.len() == HEADER_SIZE,
{
    let mut out: Vec<u8> = Vec::new();
    let mut part = u32_to_le_bytes(h.connection_id);
    out.append(&mut part);
    let mut part = u16_to_le_bytes(h.packet_index);
    out.append(&mut part);
    let mut part = u16_to_le_bytes(h.ack_index);
    out.append(&mut part);
    let mut part = u64_to_le_bytes(h.ack_mask);
    out.append(&mut part);
    out.push(h.flags);
    let mut part = u32_to_le_bytes(h.prelude);
    out.append(&mut part);
    let mut part = u16_to_le_bytes(h.payload_length);
    out.append(&mut part);
    proof {
        assert(out@ =~= spec_header_bytes(*h));
    }
    out
}

/// Decode the header at the front of a buffer; `None` iff the buffer is too
/// short to hold one.
pub fn read_header(buf: &[u8]) -> (h: Option<PacketHeader>)
    ensures
        match h {
            Some(header) => buf@.len() >= HEADER_SIZE && header == spec_read_header(buf@),
            None => buf@.len() < HEADER_SIZE,
        },
{
    if buf.len() < HEADER_SIZE {
        return None;
    }
    let connection_id = u32_from_le_bytes(vstd::slice::slice_subrange(buf, 0, 4));
    let packet_index = u16_from_le_bytes(vstd::slice::slice_subrange(buf, 4, 6));
    let ack_index = u16_from_le_bytes(vstd::slice::slice_subrange(buf, 6, 8));
    let ack_mask = u64_from_le_bytes(vstd::slice::slice_subrange(buf, 8, 16));
    let flags = *vstd::slice::slice_index_get(buf, 16);
    let prelude = u32_from_le_bytes(vstd::slice::slice_subrange(buf, 17, 21));
    let payload_length = u16_from_le_bytes(vstd::slice::slice_subrange(buf, 21, 23));
    Some(PacketHeader { connection_id, packet_index, ack_index, ack_mask, flags, prelude, payload_length })
}

/// A buffer that starts with the encoding of `h` decodes to `h`, whatever
/// follows the header.
pub proof fn lemma_read_header_prefix(h: PacketHeader, rest: Seq<u8>)
    ensures
        spec_header_bytes(h).len() == HEADER_SIZE,
        spec_read_header(spec_header_bytes(h) + rest) == h,
{
    lemma_auto_spec_u16_to_from_le_bytes();
    lemma_auto_spec_u32_to_from_le_bytes();
    lemma_auto_spec_u64_to_from_le_bytes();
    let s = spec_header_bytes(h) + rest;
    assert(s.subrange(0, 4) =~= spec_u32_to_le_bytes(h.connection_id));
    assert(s.subrange(4, 6) =~= spec_u16_to_le_bytes(h.packet_index));
    assert(s.subrange(6, 8) =~= spec_u16_to_le_bytes(h.ack_index));
    assert(s.subrange(8, 16) =~= spec_u64_to_le_bytes(h.ack_mask));
    assert(s[16] == h.flags);
    assert(s.subrange(17, 21) =~= spec_u32_to_le_bytes(h.prelude));
    assert(s.subrange(21, 23) =~= spec_u16_to_le_bytes(h.payload_length));
}

/// Round-trip framing: decoding an encoded header gives the header back, for
/// every header.
pub proof fn lemma_header_round_trip(h: PacketHeader)
    ensures
        spec_header_bytes(h).len() == HEADER_SIZE,
        spec_read_header(spec_header_bytes(h)) == h,
{
    lemma_read_header_prefix(h, Seq::empty());
    assert(spec_header_bytes(h) + Seq::<u8>::empty() =~= spec_header_bytes(h));
}

/// A byte buffer extended with its keyed hash trailer.
pub open spec fn spec_sealed_bytes(key: u64, prefix: Seq<u8>) -> Seq<u8> {
    prefix + spec_u64_to_le_bytes(keyed_hash(key, prefix))
}

/// Whether a datagram's trailing 8 bytes are the keyed hash of everything
/// before them.
pub open spec fn spec_packet_verifies(key: u64, bytes: Seq<u8>) -> bool {
    &&& bytes.len() >= HASH_SIZE
    &&& bytes.subrange(bytes.len() - HASH_SIZE, bytes.len() as int) == spec_u64_to_le_bytes(
        keyed_hash(key, bytes.subrange(0, bytes.len() - HASH_SIZE)),
    )
}

/// Append the keyed hash of the buffer's current contents to the buffer.
pub fn seal_packet(buf: &mut Vec<u8>, key: u64)
    requires
        old(buf)@.len() + HASH_SIZE <= usize::MAX,
    ensures
        final(buf)@ == spec_sealed_bytes(key, old(buf)@),
        final(buf)@.len() == old(buf)@.len() + HASH_SIZE,
        spec_packet_verifies(key, final(buf)@),
{
    let h = compute_hash(key, buf.as_slice());
    let mut trailer = u64_to_le_bytes(h);
    buf.append(&mut trailer);
    proof {
        lemma_auto_spec_u64_to_from_le_bytes();
        let whole = buf@;
        assert(whole.subrange(0, whole.len() - HASH_SIZE) =~= old(buf)@);
        assert(whole.subrange(whole.len() - HASH_SIZE, whole.len() as int) =~= spec_u64_to_le_bytes(
            h,
        ));
    }
}

/// Check a datagram's trailing keyed hash; packets that fail are dropped
/// before any state update.
pub fn verify_packet(bytes: &[u8], key: u64) -> (ok: bool)
    ensures
        ok == spec_packet_verifies(key, bytes@),
{
    if bytes.len() < HASH_SIZE {
        return false;
    }
    let n = bytes.len();
    let computed = compute_hash(key, vstd::slice::slice_subrange(bytes, 0, n - HASH_SIZE));
    let stored = u64_from_le_bytes(vstd::slice::slice_subrange(bytes, n - HASH_SIZE, n));
    proof {
        lemma_auto_spec_u64_to_from_le_bytes();
        let trailer = bytes@.subrange(n - HASH_SIZE, n as int);
        assert(spec_u64_to_le_bytes(spec_u64_from_le_bytes(trailer)) == trailer);
    }
    computed == stored
}

/// Any single corrupted byte is caught by the hash check: if a datagram
/// verifies under a key, the same datagram with exactly one byte changed
/// does not.
pub proof fn lemma_byte_corruption_detected(key: u64, b: Seq<u8>, c: Seq<u8>, i: int)
    requires
        spec_packet_verifies(key, b),
        c.len() == b.len(),
        0 <= i < b.len(),
        c[i] != b[i],
        forall|j: int| 0 <= j < b.len() && j != i ==> c[j] == b[j],
    ensures
        !spec_packet_verifies(key, c),
{
    lemma_auto_spec_u64_to_from_le_bytes();
    let n = b.len() as int;
    let hb = n - HASH_SIZE;
    let prefix_b = b.subrange(0, hb);
    let prefix_c = c.subrange(0, hb);
    let trailer_b = b.subrange(hb, n);
    let trailer_c = c.subrange(hb, n);
    if i < hb {
        assert(trailer_c =~= trailer_b);
        lemma_hash_detects_byte_change(key, prefix_b, prefix_c, i);
        if spec_packet_verifies(key, c) {
            assert(spec_u64_from_le_bytes(trailer_b) == keyed_hash(key, prefix_b));
            assert(spec_u64_from_le_bytes(trailer_c) == keyed_hash(key, prefix_c));
        }
    } else {
        assert(prefix_c =~= prefix_b);
        assert(trailer_c[i - hb] != trailer_b[i - hb]);
        assert(trailer_c != trailer_b);
    }
}

/// A run of `n` zero padding bytes.
pub open spec fn spec_zero_bytes(n: int) -> Seq<u8> {
    Seq::new(n as nat, |i: int| 0u8)
}

/// The full wire form of a packet: header, payload, zero padding up to the
/// fixed datagram size, and the keyed hash trailer.
pub open spec fn spec_datagram(
    key: u64,
    max_datagram_length: int,
    h: PacketHeader,
    payload: Seq<u8>,
) -> Seq<u8> {
    spec_sealed_bytes(
        key,
        spec_header_bytes(h) + payload + spec_zero_bytes(
            max_datagram_length - HASH_SIZE - HEADER_SIZE - payload.len(),
        ),
    )
}

/// Frame a packet: encode the header, append the payload, pad with zeros to
/// the fixed datagram size and seal with the keyed hash.
pub fn build_datagram(
    key: u64,
    max_datagram_length: usize,
    header: &PacketHeader,
    payload: &[u8],
) -> (out: Vec<u8>)
    requires
        HEADER_SIZE + HASH_SIZE <= max_datagram_length <= 0x10000,
        payload@.len() <= max_datagram_length - HEADER_SIZE - HASH_SIZE,
    ensures
        out@ == spec_datagram(key, max_datagram_length as int, *header, payload@),
        out@.len() == max_datagram_length,
        spec_packet_verifies(key, out@),
{
    let mut out = write_header(header);
    out.extend_from_slice(payload);
    let target = max_datagram_length - HASH_SIZE;
    proof {
        assert(out@ =~= spec_header_bytes(*header) + payload@ + spec_zero_bytes(0));
    }
    while out.len() < target
        invariant
            out@.len() >= HEADER_SIZE + payload@.len(),
            out@.len() <= target <= 0x10000,
            target == max_datagram_length - HASH_SIZE,
            out@ == spec_header_bytes(*header) + payload@ + spec_zero_bytes(
                out@.len() - HEADER_SIZE - payload@.len(),
            ),
        decreases target - out@.len(),
    {
        out.push(0u8);
        proof {
            assert(out@ =~= spec_header_bytes(*header) + payload@ + spec_zero_bytes(
                out@.len() - HEADER_SIZE - payload@.len(),
            ));
        }
    }
    seal_packet(&mut out, key);
    out
}

/// A datagram is structurally valid when it has exactly the agreed size, its
/// keyed hash verifies, and its declared payload length fits before the hash
/// trailer.
pub open spec fn spec_datagram_well_formed(
    key: u64,
    max_datagram_length: int,
    bytes: Seq<u8>,
) -> bool {
    &&& bytes.len() == max_datagram_length
    &&& bytes.len() >= HEADER_SIZE + HASH_SIZE
    &&& spec_packet_verifies(key, bytes)
    &&& spec_read_header(bytes).payload_length <= max_datagram_length - HEADER_SIZE - HASH_SIZE
}

/// The payload bytes a well-formed datagram carries.
pub open spec fn spec_datagram_payload(bytes: Seq<u8>) -> Seq<u8> {
    bytes.subrange(
        HEADER_SIZE as int,
        HEADER_SIZE + spec_read_header(bytes).payload_length as int,
    )
}

/// Validate and split an inbound datagram: `None` exactly for a malformed
/// one (wrong size, failing hash, or an impossible payload length), the
/// header and payload otherwise.
pub fn parse_datagram(bytes: &[u8], key: u64, max_datagram_length: usize) -> (r: Option<
    (PacketHeader, Vec<u8>),
>)
    requires
        HEADER_SIZE + HASH_SIZE <= max_datagram_length,
    ensures
        match r {
            Some(parts) => {
                &&& spec_datagram_well_formed(key, max_datagram_length as int, bytes@)
                &&& parts.0 == spec_read_header(bytes@)
                &&& parts.1@ == spec_datagram_payload(bytes@)
            },
            None => !spec_datagram_well_formed(key, max_datagram_length as int, bytes@),
        },
{
    if bytes.len() != max_datagram_length {
        return None;
    }
    if !verify_packet(bytes, key) {
        return None;
    }
    let header = match read_header(bytes) {
        Some(h) => h,
        None => {
            return None;
        },
    };
    if header.payload_length as usize > max_datagram_length - HEADER_SIZE - HASH_SIZE {
        return None;
    }
    let payload = vstd::slice::slice_to_vec(
        vstd::slice::slice_subrange(
            bytes,
            HEADER_SIZE,
            HEADER_SIZE + header.payload_length as usize,
        ),
    );
    Some((header, payload))
}

/// Building a datagram and parsing it back yields the same header and
/// payload: framing round-trips through the wire form.
pub proof fn lemma_datagram_round_trip(
    key: u64,
    max_datagram_length: int,
    h: PacketHeader,
    payload: Seq<u8>,
)
    requires
        HEADER_SIZE + HASH_SIZE <= max_datagram_length,
        payload.len() <= max_datagram_length - HEADER_SIZE - HASH_SIZE,
        h.payload_length == payload.len(),
    ensures
        spec_datagram_well_formed(
            key,
            max_datagram_length,
            spec_datagram(key, max_datagram_length, h, payload),
        ),
        spec_read_header(spec_datagram(key, max_datagram_length, h, payload)) == h,
        spec_datagram_payload(spec_datagram(key, max_datagram_length, h, payload)) == payload,
{
    let prefix = spec_header_bytes(h) + payload + spec_zero_bytes(
        max_datagram_length - HASH_SIZE - HEADER_SIZE - payload.len(),
    );
    let bytes = spec_datagram(key, max_datagram_length, h, payload);
    lemma_read_header_prefix(
        h,
        payload + spec_zero_bytes(max_datagram_length - HASH_SIZE - HEADER_SIZE - payload.len())
            + spec_u64_to_le_bytes(keyed_hash(key, prefix)),
    );
    lemma_auto_spec_u64_to_from_le_bytes();
    assert(bytes =~= spec_header_bytes(h) + (payload + spec_zero_bytes(
        max_datagram_length - HASH_SIZE - HEADER_SIZE - payload.len(),
    ) + spec_u64_to_le_bytes(keyed_hash(key, prefix))));
    assert(bytes.len() == max_datagram_length);
    assert(bytes.subrange(0, bytes.len() - HASH_SIZE) =~= prefix);
    assert(bytes.subrange(bytes.len() - HASH_SIZE, bytes.len() as int) =~= spec_u64_to_le_bytes(
        keyed_hash(key, prefix),
    ));
    assert(spec_datagram_payload(bytes) =~= payload);
}

/// Any single flipped bit is caught by the hash check.
pub proof fn lemma_bit_corruption_detected(key: u64, b: Seq<u8>, i: int, k: u8)
    requires
        spec_packet_verifies(key, b),
        0 <= i < b.len(),
        k < 8,
    ensures
        !spec_packet_verifies(key, b.update(i, (b[i] ^ (1u8 << k)) as u8)),
{
    let x = b[i];
    assert(k < 8 ==> (x ^ (1u8 << k)) != x) by (bit_vector);
    lemma_byte_corruption_detected(key, b, b.update(i, (x ^ (1u8 << k)) as u8), i);
}

} // verus!
