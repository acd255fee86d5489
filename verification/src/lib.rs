//! Message-oriented, reliable-capable transport over an unreliable datagram
//! substrate. The crate verifies the connection protocol engine: packet
//! framing with a keyed integrity hash, acknowledgement and retransmission
//! logic, demultiplexing by connection id, handshake, and ordered stream
//! reassembly. All I/O stays outside; the engine consumes and produces plain
//! byte datagrams.
//!
//! The integrity hash is a fixed keyed function of the crate's own rather
//! than a caller-supplied hasher capability: only a concrete hash admits the
//! proof that any single corrupted byte is caught. Both endpoints configure
//! the same 64-bit key instead of a shared hasher seed.

pub mod ack;
pub mod connection;
pub mod endpoint;
pub mod error;
pub mod hash;
pub mod packet;
pub mod reliability;
pub mod stream;

use vstd::prelude::*;

verus! {

/// Identifier a receiving side assigns to a virtual connection; `0` is
/// reserved for handshake traffic.
pub type ConnectionId = u32;

/// Why deserializing a value from bytes failed.
#[derive(Clone, Copy, Debug, PartialEq, Eq, Structural)]
pub enum SerializationError {
    /// The bytes do not hold a value of the expected shape.
    InvalidFormat,
}

/// A value with a byte form: what the parcel channels carry on the wire.
pub trait ByteSerialize: Sized {
    /// The byte form of the value.
    spec fn spec_bytes(&self) -> Seq<u8>;

    /// Whether the given bytes are the byte form of some value: exactly the
    /// inputs on which deserialization succeeds.
    spec fn spec_parses(bytes: Seq<u8>) -> bool;

    /// Serialize the value into its byte form, which deserializes.
    fn to_bytes(&self) -> (out: Vec<u8>)
        ensures
            out@ == self.spec_bytes(),
            Self::spec_parses(out@),
    ;

    /// Deserialize a value from bytes: succeeds exactly on parseable bytes,
    /// and a returned value has exactly the given bytes as its byte form.
    fn from_bytes(bytes: &[u8]) -> (r: Result<Self, SerializationError>)
        ensures
            r is Ok <==> Self::spec_parses(bytes@),
            r matches Ok(v) ==> v.spec_bytes() == bytes@,
    ;
}

/// Marker for message types the parcel channels pass.
pub trait Parcel: ByteSerialize {

}

impl ByteSerialize for Vec<u8> {
    open spec fn spec_bytes(&self) -> Seq<u8> {
        self@
    }

    open spec fn spec_parses(bytes: Seq<u8>) -> bool {
        true
    }

    fn to_bytes(&self) -> (out: Vec<u8>) {
        vstd::slice::slice_to_vec(self.as_slice())
    }

    fn from_bytes(bytes: &[u8]) -> (r: Result<Self, SerializationError>) {
        Ok(vstd::slice::slice_to_vec(bytes))
    }
}

impl Parcel for Vec<u8> {

}

impl ByteSerialize for u8 {
    open spec fn spec_bytes(&self) -> Seq<u8> {
        seq![*self]
    }

    open spec fn spec_parses(bytes: Seq<u8>) -> bool {
        bytes.len() == 1
    }

    fn to_bytes(&self) -> (out: Vec<u8>) {
        let mut out: Vec<u8> = Vec::new();
        out.push(*self);
        proof {
            assert(out@ =~= seq![*self]);
        }
        out
    }

    fn from_bytes(bytes: &[u8]) -> (r: Result<Self, SerializationError>) {
        if bytes.len() == 1 {
            Ok(*vstd::slice::slice_index_get(bytes, 0))
        } else {
            Err(SerializationError::InvalidFormat)
        }
    }
}

impl Parcel for u8 {

}

} // verus!
