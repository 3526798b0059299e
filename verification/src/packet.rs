//! The wire format: one datagram holds one packet.
//!
//! ```text
//! byte 0 : status byte; bit 0 = 0 -> Header, 1 -> Data;
//!          bit 1 (Data only) = 1 -> this fragment is the last
//! byte 1 : file identifier
//! Header : [status][file_id][file_name bytes...]
//! Data   : [status][file_id][seq_hi][seq_lo][payload bytes...]
//! ```
//!
//! A Header packet needs at least 2 bytes, a Data packet at least 4; a
//! shorter buffer is the one decode error, [`PacketParseError::TooShort`].
//! Decoding is a pure function of the buffer and keeps every byte of the
//! file name and the payload exactly as it arrived; file names are opaque
//! byte strings and need not be UTF-8.

use vstd::prelude::*;
use vstd::slice::slice_subrange;
use vstd::slice::slice_to_vec;

verus! {

/// The one decode failure: the buffer is below the minimum length for its
/// packet type (2 bytes for a Header packet, 4 for a Data packet).
#[derive(Debug, Clone, Copy, PartialEq, Eq, Structural)]
pub enum PacketParseError {
    TooShort,
}

/// A decoded Header packet: announces the file name for one file identifier.
#[derive(Debug, PartialEq, Eq)]
pub struct HeaderPacket {
    pub status_byte: u8,
    pub file_id: u8,
    /// The file's name, verbatim from the wire; any bytes, not only UTF-8.
    pub file_name: Vec<u8>,
}

/// A decoded Data packet: one fragment of one file's contents.
#[derive(Debug, PartialEq, Eq)]
pub struct DataPacket {
    pub status_byte: u8,
    pub file_id: u8,
    /// The fragment's sequence number, big-endian on the wire.
    pub packet_number: u16,
    pub data: Vec<u8>,
}

/// A decoded packet of either kind.
#[derive(Debug, PartialEq, Eq)]
pub enum Packet {
    HeaderPacket(HeaderPacket),
    DataPacket(DataPacket),
}

/// Bit 0 of the status byte: clear means Header, set means Data.
pub open spec fn spec_is_data_status(status: u8) -> bool {
    status & 0x01 != 0
}

/// Bit 1 of the status byte: set means the Data packet carries the last
/// fragment of its file.
pub open spec fn spec_is_last_status(status: u8) -> bool {
    status & 0x02 != 0
}

/// The big-endian 16-bit integer held in two bytes.
pub open spec fn spec_be_u16(hi: u8, lo: u8) -> u16 {
    (hi * 256 + lo) as u16
}

/// What a Header packet decoded from `bytes` holds: the status byte and the
/// file identifier from the first two bytes, and every remaining byte,
/// verbatim, as the file name.
pub open spec fn spec_header_from(h: HeaderPacket, bytes: Seq<u8>) -> bool {
    &&& h.status_byte == bytes[0]
    &&& h.file_id == bytes[1]
    &&& h.file_name@ == bytes.subrange(2, bytes.len() as int)
}

/// What a Data packet decoded from `bytes` holds: status byte, file
/// identifier, the big-endian sequence number from bytes 2 and 3, and every
/// remaining byte, verbatim, as the payload.
pub open spec fn spec_data_from(d: DataPacket, bytes: Seq<u8>) -> bool {
    &&& d.status_byte == bytes[0]
    &&& d.file_id == bytes[1]
    &&& d.packet_number == spec_be_u16(bytes[2], bytes[3])
    &&& d.data@ == bytes.subrange(4, bytes.len() as int)
}

impl DataPacket {
    /// True iff bit 1 of this packet's status byte is set.
    pub fn is_last_data_packet(&self) -> (r: bool)
        ensures
            r == spec_is_last_status(self.status_byte),
    {
        self.status_byte & 0x02 != 0
    }
}

impl HeaderPacket {
    /// Decodes a Header packet: `[status][file_id][file_name bytes...]`.
    /// Fails exactly when the buffer is shorter than 2 bytes; otherwise the
    /// file name is the remaining bytes, byte for byte.
    pub fn try_from(buffer: &[u8]) -> (r: Result<HeaderPacket, PacketParseError>)
        ensures
            r is Err <==> buffer@.len() < 2,
            r matches Err(e) ==> e == PacketParseError::TooShort,
            r matches Ok(h) ==> spec_header_from(h, buffer@),
    {
        if buffer.len() < 2 {
            return Err(PacketParseError::TooShort);
        }
        let status_byte = buffer[0];
        let file_id = buffer[1];
        let file_name = slice_to_vec(slice_subrange(buffer, 2, buffer.len()));
        Ok(HeaderPacket { status_byte, file_id, file_name })
    }
}

impl DataPacket {
    /// Decodes a Data packet: `[status][file_id][seq_hi][seq_lo][payload...]`.
    /// Fails exactly when the buffer is shorter than 4 bytes; otherwise the
    /// sequence number is read big-endian and the payload is the remaining
    /// bytes (possibly none), byte for byte.
    pub fn try_from(buffer: &[u8]) -> (r: Result<DataPacket, PacketParseError>)
        ensures
            r is Err <==> buffer@.len() < 4,
            r matches Err(e) ==> e == PacketParseError::TooShort,
            r matches Ok(d) ==> spec_data_from(d, buffer@),
    {
        if buffer.len() < 4 {
            return Err(PacketParseError::TooShort);
        }
        let status_byte = buffer[0];
        let file_id = buffer[1];
        let packet_number: u16 = (buffer[2] as u16) * 256 + (buffer[3] as u16);
        let data = slice_to_vec(slice_subrange(buffer, 4, buffer.len()));
        Ok(DataPacket { status_byte, file_id, packet_number, data })
    }
}

impl Packet {
    /// Decodes a buffer whose status byte announces a Header packet.
    pub fn new_header(bytes: &[u8]) -> (r: Result<Packet, PacketParseError>)
        ensures
            r is Err <==> bytes@.len() < 2,
            r matches Err(e) ==> e == PacketParseError::TooShort,
            r matches Ok(p) ==> (p matches Packet::HeaderPacket(h) && spec_header_from(h, bytes@)),
    {
        match HeaderPacket::try_from(bytes) {
            Ok(h) => Ok(Packet::HeaderPacket(h)),
            Err(e) => Err(e),
        }
    }

    /// Decodes a buffer whose status byte announces a Data packet.
    pub fn new_data(bytes: &[u8]) -> (r: Result<Packet, PacketParseError>)
        ensures
            r is Err <==> bytes@.len() < 4,
            r matches Err(e) ==> e == PacketParseError::TooShort,
            r matches Ok(p) ==> (p matches Packet::DataPacket(d) && spec_data_from(d, bytes@)),
    {
        match DataPacket::try_from(bytes) {
            Ok(d) => Ok(Packet::DataPacket(d)),
            Err(e) => Err(e),
        }
    }

    /// Decodes a datagram.  Bit 0 of the status byte picks the packet kind;
    /// the one failure is a buffer below the minimum length for that kind.
    pub fn try_from(bytes: &[u8]) -> (r: Result<Packet, PacketParseError>)
        ensures
            r is Err <==> (bytes@.len() < 2
                || (spec_is_data_status(bytes@[0]) && bytes@.len() < 4)),
            r matches Err(e) ==> e == PacketParseError::TooShort,
            r matches Ok(p) ==> match p {
                Packet::HeaderPacket(h) => !spec_is_data_status(bytes@[0])
                    && spec_header_from(h, bytes@),
                Packet::DataPacket(d) => spec_is_data_status(bytes@[0])
                    && spec_data_from(d, bytes@),
            },
    {
        if bytes.len() < 2 {
            return Err(PacketParseError::TooShort);
        }
        if bytes[0] & 0x01 == 0 {
            Packet::new_header(bytes)
        } else {
            Packet::new_data(bytes)
        }
    }
}

/// The last-fragment flag reads bit 1 of the status byte and nothing else:
/// two status bytes that agree on bit 1 yield the same flag, however they
/// differ on the packet-type bit (bit 0) or any other bit.
pub proof fn lemma_is_last_independent_of_other_bits(a: u8, b: u8)
    requires
        a & 0x02 == b & 0x02,
    ensures
        spec_is_last_status(a) == spec_is_last_status(b),
{
}

/// In particular, setting or clearing bit 0 never changes the
/// last-fragment flag.
pub proof fn lemma_is_last_independent_of_bit0(status: u8)
    ensures
        spec_is_last_status(status | 0x01) == spec_is_last_status(status),
        spec_is_last_status(status & 0xfe) == spec_is_last_status(status),
{
    assert((status | 0x01) & 0x02 == status & 0x02) by (bit_vector);
    assert((status & 0xfe) & 0x02 == status & 0x02) by (bit_vector);
}

} // verus!
