//! Packet headers and the manager that issues them.

use crate::error::SerializationError;
use crate::wire::{be16, write_u16, write_u8};
use vstd::prelude::*;

verus! {

/// Sequence number of a packet.
#[derive(Clone, Copy, Debug, PartialEq, Eq, Structural)]
pub struct PacketId(pub u16);

/// Logical time at which a packet is sent.
#[derive(Clone, Copy, Debug, PartialEq, Eq, Structural)]
pub struct Tick(pub u16);

/// What a packet carries after its header.
#[derive(Clone, Copy, Debug, PartialEq, Eq, Structural)]
pub enum PacketType {
    /// Channel blocks only.
    Data,
    /// One fragment, then channel blocks.
    DataFragment,
}

/// Number of bytes in a serialized header.
pub const HEADER_BYTES: usize = 5;

impl PacketType {
    /// The byte that stands for this type on the wire.
    pub open spec fn code(self) -> u8 {
        match self {
            PacketType::Data => 0,
            PacketType::DataFragment => 1,
        }
    }

    /// The byte that stands for this type on the wire.
    pub fn to_byte(self) -> (b: u8)
        ensures
            b == self.code(),
    {
        match self {
            PacketType::Data => 0,
            PacketType::DataFragment => 1,
        }
    }

    /// The type that `b` stands for, if any.
    pub fn from_byte(b: u8) -> (r: Option<PacketType>)
        ensures
            r matches Some(t) ==> t.code() == b,
            r is None <==> b > 1,
    {
        if b == 0 {
            Some(PacketType::Data)
        } else if b == 1 {
            Some(PacketType::DataFragment)
        } else {
            None
        }
    }
}

/// What every packet starts with.
#[derive(Clone, Copy, Debug, PartialEq, Eq, Structural)]
pub struct PacketHeader {
    pub packet_type: PacketType,
    pub packet_id: PacketId,
    pub tick: Tick,
}

impl PacketHeader {
    /// The serialized header: type, packet id, tick.
    pub open spec fn encoding(self) -> Seq<u8> {
        seq![self.packet_type.code()] + be16(self.packet_id.0) + be16(self.tick.0)
    }

    /// Number of bytes that `to_bytes` appends.
    pub fn len(&self) -> (n: usize)
        ensures
            n == HEADER_BYTES,
            n == self.encoding().len(),
    {
        HEADER_BYTES
    }

    /// Appends the serialized header to `buf`.
    pub fn to_bytes(&self, buf: &mut Vec<u8>) -> (r: Result<(), SerializationError>)
        ensures
            r is Ok,
            final(buf)@ == old(buf)@ + self.encoding(),
    {
        write_u8(buf, self.packet_type.to_byte())?;
        write_u16(buf, self.packet_id.0)?;
        write_u16(buf, self.tick.0)?;
        Ok(())
    }
}

/// The packet id that is issued after `id`; ids wrap around.
pub open spec fn next_id(id: PacketId) -> PacketId {
    if id.0 == u16::MAX {
        PacketId(0)
    } else {
        PacketId((id.0 + 1) as u16)
    }
}

/// Issues the headers of outgoing packets, each with a packet id of its own.
pub struct PacketHeaderManager {
    pub next_packet_id: PacketId,
}

impl PacketHeaderManager {
    /// A manager whose first header has packet id 0.
    pub fn new() -> (m: Self)
        ensures
            m.next_packet_id == PacketId(0),
    {
        PacketHeaderManager { next_packet_id: PacketId(0) }
    }

    /// The header of the next packet to send. Its tick is 0 until the caller
    /// sets it; the id after it is issued next.
    pub fn prepare_send_packet_header(&mut self, packet_type: PacketType) -> (h: PacketHeader)
        ensures
            h == (PacketHeader {
                packet_type,
                packet_id: old(self).next_packet_id,
                tick: Tick(0),
            }),
            final(self).next_packet_id == next_id(old(self).next_packet_id),
    {
        let id = self.next_packet_id;
        self.next_packet_id = PacketId(id.0.wrapping_add(1));
        PacketHeader { packet_type, packet_id: id, tick: Tick(0) }
    }
}

} // verus!
