//! The data model: encoded packets, the encoded bundle, and the error kinds.

use vstd::prelude::*;
use crate::params::TransmissionParameters;

verus! {

/// Why an encode or decode call failed.
#[derive(Clone, Copy, Debug, PartialEq, Eq, Structural)]
pub enum FecError {
    /// The payload handed to `encode` was empty, or too large for this
    /// machine's address space or the packet identifier space.
    InvalidInput,
    /// Decoding ran out of packets before the linear system reached full
    /// rank: `provided` packets were supplied, at least `required` with
    /// distinct identifiers are needed.
    InsufficientSymbols { provided: usize, required: usize },
    /// The bundle's transmission parameters are inconsistent with
    /// themselves or with the packets that accompany them.
    CorruptParameters,
}

/// One encoded symbol in transit. An `id` below the source-symbol count
/// marks a systematic packet whose payload is that source symbol verbatim;
/// any other `id` marks a repair packet whose payload is the linear
/// combination of all source symbols given by the generator row for `id`.
#[derive(Debug)]
pub struct EncodingPacket {
    pub id: u32,
    pub payload: Vec<u8>,
}

/// The sole artifact crossing from `encode` to `decode`: the transmission
/// parameters and the packets produced under them.
#[derive(Debug)]
pub struct EncodeResult {
    pub parameters: TransmissionParameters,
    pub packets: Vec<EncodingPacket>,
}

/// The mathematical view of a packet: its identifier and its payload bytes.
pub open spec fn packet_view(p: EncodingPacket) -> (u32, Seq<u8>) {
    (p.id, p.payload@)
}

/// The views of a sequence of packets.
pub open spec fn packet_views(s: Seq<EncodingPacket>) -> Seq<(u32, Seq<u8>)> {
    s.map_values(|p: EncodingPacket| packet_view(p))
}

} // verus!
