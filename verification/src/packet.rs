//! A packet with its payload and the account of the bytes that are
//! reserved in it.

use crate::error::SerializationError;
use crate::grammar::{lemma_parse_packet, parse_packet};
use crate::header::PacketId;
use crate::layout::{channel_prefix_size, PacketLayout};
use crate::message::{ChannelId, MessageAck};
use crate::parse::{parse_bytes, PacketContents};
use crate::wire::varint_len;
use crate::MTU_PAYLOAD_BYTES;
use vstd::prelude::*;

verus! {

/// A packet that is being filled, or that is ready to be sent.
pub struct Packet {
    /// The bytes to send: the header and what was written behind it.
    pub payload: Vec<u8>,
    /// The acknowledgments to wait for once the packet is sent.
    pub message_acks: Vec<(ChannelId, MessageAck)>,
    /// The packet's sequence number.
    pub packet_id: PacketId,
    /// Number of bytes that are promised to content not yet written.
    pub prewritten_size: usize,
    /// What the payload holds.
    pub layout: Ghost<PacketLayout>,
}

impl View for Packet {
    type V = PacketLayout;

    open spec fn view(&self) -> PacketLayout {
        self.layout@
    }
}

impl Packet {
    /// The payload is the encoding of the packet's layout, the
    /// acknowledgments are those of the layout, and written and reserved
    /// bytes together are no more than a packet may hold.
    pub open spec fn wf(&self) -> bool {
        &&& self@.valid()
        &&& self.payload@ == self@.encoding()
        &&& self.message_acks@ == self@.acks()
        &&& self.packet_id == self@.header.packet_id
        &&& self.payload@.len() + self.prewritten_size <= MTU_PAYLOAD_BYTES
    }

    /// Number of bytes that are neither written nor reserved.
    pub open spec fn room(&self) -> int {
        MTU_PAYLOAD_BYTES - self.payload@.len() - self.prewritten_size
    }

    /// Whether `size` more bytes can be reserved.
    pub fn can_fit(&self, size: usize) -> (b: bool)
        ensures
            b == (self.payload@.len() + size + self.prewritten_size <= MTU_PAYLOAD_BYTES),
    {
        let used: usize = self.payload.len();
        if used > MTU_PAYLOAD_BYTES {
            return false;
        }
        let left: usize = MTU_PAYLOAD_BYTES - used;
        if self.prewritten_size > left {
            return false;
        }
        size <= left - self.prewritten_size
    }

    /// Reads the payload back: the header, the fragment and the channel
    /// blocks that it holds. A well-formed packet is read as what was
    /// packed into it.
    pub fn parse_packet_payload(&self) -> (r: Result<PacketContents, SerializationError>)
        ensures
            match r {
                Ok(contents) => parse_packet(self.payload@) == Some(contents@),
                Err(e) => e is InvalidPacket && parse_packet(self.payload@) is None,
            },
            self.wf() ==> (r matches Ok(contents) && contents@ == self@),
    {
        proof {
            if self.wf() {
                lemma_parse_packet(self@);
            }
        }
        parse_bytes(&self.payload)
    }

    /// Whether the id of `channel_id` and a message count can be reserved;
    /// if so, reserves them.
    pub fn can_fit_channel(&mut self, channel_id: ChannelId) -> (b: bool)
        ensures
            b == (channel_prefix_size(channel_id) <= old(self).room()),
            final(self).prewritten_size == old(self).prewritten_size + if b {
                channel_prefix_size(channel_id)
            } else {
                0
            },
            final(self).payload == old(self).payload,
            final(self).message_acks == old(self).message_acks,
            final(self).packet_id == old(self).packet_id,
            final(self).layout == old(self).layout,
    {
        let size: usize = varint_len(channel_id as u64) + 1;
        if self.can_fit(size) {
            self.prewritten_size += size;
            true
        } else {
            false
        }
    }
}

} // verus!
