//! Reads payloads back into what they hold.

use crate::content::blocks_singles;
use crate::error::SerializationError;
use crate::grammar::{
    lemma_parse_block_advances, parse_block, parse_blocks, parse_channel, parse_fragment,
    parse_header, parse_messages, parse_packet, parse_payload, parse_single, parse_u16,
    parse_u8, parse_varint, };
use crate::header::{PacketHeader, PacketId, PacketType, Tick, HEADER_BYTES};
use crate::layout::{Block, PacketLayout};
use crate::message::{
    queue_views, ChannelId, FragmentData, FragmentView, MessageId, SingleData, SingleView,
};
use vstd::prelude::*;

verus! {

/// What was read from a payload.
pub struct PacketContents {
    pub header: PacketHeader,
    /// The fragment that the packet holds, with its channel.
    pub fragment: Option<(ChannelId, FragmentData)>,
    /// The channel blocks, in the order in which they stand in the packet.
    pub blocks: Vec<(ChannelId, Vec<SingleData>)>,
}

/// The blocks as plain values.
pub open spec fn block_views(blocks: Seq<(ChannelId, Vec<SingleData>)>) -> Seq<Block> {
    blocks.map_values(
        |b: (ChannelId, Vec<SingleData>)| Block { channel: b.0, messages: queue_views(b.1@) },
    )
}

/// The bytes of each vector.
pub open spec fn byte_views(payloads: Seq<Vec<u8>>) -> Seq<Seq<u8>> {
    payloads.map_values(|p: Vec<u8>| p@)
}

/// The payloads of the messages.
pub open spec fn single_payloads(messages: Seq<SingleView>) -> Seq<Seq<u8>> {
    messages.map_values(|m: SingleView| m.bytes)
}

/// The payloads of what a packet holds for `channel`: that of its
/// fragment, then those of its messages in their order.
pub open spec fn payloads_of(layout: PacketLayout, channel: ChannelId) -> Seq<Seq<u8>> {
    layout.fragments_of(channel).map_values(|f: FragmentView| f.bytes) + single_payloads(
        layout.singles_of(channel),
    )
}

impl View for PacketContents {
    type V = PacketLayout;

    open spec fn view(&self) -> PacketLayout {
        PacketLayout {
            header: self.header,
            fragment: match self.fragment {
                Some((channel, fragment)) => Some((channel, fragment@)),
                None => None,
            },
            blocks: block_views(self.blocks@),
        }
    }
}

impl PacketContents {
    /// The payloads of what the packet holds for `channel_id`, or nothing
    /// if it holds none.
    pub fn get(&self, channel_id: ChannelId) -> (r: Option<Vec<Vec<u8>>>)
        ensures
            r matches Some(payloads) ==> byte_views(payloads@) == payloads_of(self@, channel_id),
            r is None <==> payloads_of(self@, channel_id).len() == 0,
    {
        let mut found: Vec<Vec<u8>> = Vec::new();
        match &self.fragment {
            Some((channel, fragment)) => {
                if *channel == channel_id {
                    let payload = fragment.bytes.clone();
                    found.push(payload);
                }
            },
            None => {},
        }
        let ghost fragments = byte_views(found@);
        let ghost blocks = block_views(self.blocks@);
        let mut i: usize = 0;
        while i < self.blocks.len()
            invariant
                i <= self.blocks@.len(),
                blocks == block_views(self.blocks@),
                byte_views(found@) == fragments + single_payloads(
                    blocks_singles(blocks.take(i as int), channel_id),
                ),
            decreases self.blocks@.len() - i,
        {
            let ghost before = blocks_singles(blocks.take(i as int), channel_id);
            assert(blocks.take(i + 1).drop_last() =~= blocks.take(i as int));
            if self.blocks[i].0 == channel_id {
                let messages = &self.blocks[i].1;
                let ghost views = queue_views(messages@);
                let mut j: usize = 0;
                while j < messages.len()
                    invariant
                        j <= messages@.len(),
                        views == queue_views(messages@),
                        byte_views(found@) == fragments + single_payloads(
                            before + views.take(j as int),
                        ),
                    decreases messages@.len() - j,
                {
                    let payload = messages[j].bytes.clone();
                    let ghost found_before = byte_views(found@);
                    found.push(payload);
                    assert(byte_views(found@) =~= found_before.push(payload@));
                    j = j + 1;
                }
            }
            i = i + 1;
        }
        assert(blocks.take(i as int) =~= blocks);
        if found.len() == 0 {
            None
        } else {
            Some(found)
        }
    }
}

/// Reads one byte at index `at`.
fn read_u8(bytes: &Vec<u8>, at: usize) -> (r: Option<(u8, usize)>)
    ensures
        match r {
            Some((v, end)) => parse_u8(bytes@, at as int) == Some((v, end as int)),
            None => parse_u8(bytes@, at as int) is None,
        },
{
    if at < bytes.len() {
        Some((bytes[at], at + 1))
    } else {
        None
    }
}

/// Reads two bytes at index `at`, most significant first.
fn read_u16(bytes: &Vec<u8>, at: usize) -> (r: Option<(u16, usize)>)
    ensures
        match r {
            Some((v, end)) => parse_u16(bytes@, at as int) == Some((v, end as int)),
            None => parse_u16(bytes@, at as int) is None,
        },
{
    if at < bytes.len() && bytes.len() - at >= 2 {
        let high: u16 = bytes[at] as u16;
        let low: u16 = bytes[at + 1] as u16;
        Some((high * 0x100 + low, at + 2))
    } else {
        None
    }
}

/// Reads a variable-length value at index `at`.
fn read_varint(bytes: &Vec<u8>, at: usize) -> (r: Option<(u64, usize)>)
    ensures
        match r {
            Some((v, end)) => parse_varint(bytes@, at as int) == Some((v, end as int)),
            None => parse_varint(bytes@, at as int) is None,
        },
{
    if at >= bytes.len() {
        return None;
    }
    let first: u8 = bytes[at];
    let size: usize = if first < 0x40 {
        1
    } else if first < 0x80 {
        2
    } else if first < 0xc0 {
        4
    } else {
        8
    };
    if bytes.len() - at < size {
        return None;
    }
    let value: u64 = if size == 1 {
        first as u64
    } else if size == 2 {
        (first - 0x40) as u64 * 0x100 + bytes[at + 1] as u64
    } else if size == 4 {
        (first - 0x80) as u64 * 0x100_0000 + bytes[at + 1] as u64 * 0x1_0000 + bytes[at
            + 2] as u64 * 0x100 + bytes[at + 3] as u64
    } else {
        (first - 0xc0) as u64 * 0x100_0000_0000_0000 + bytes[at + 1] as u64
            * 0x1_0000_0000_0000 + bytes[at + 2] as u64 * 0x100_0000_0000 + bytes[at
            + 3] as u64 * 0x1_0000_0000 + bytes[at + 4] as u64 * 0x100_0000 + bytes[at
            + 5] as u64 * 0x1_0000 + bytes[at + 6] as u64 * 0x100 + bytes[at + 7] as u64
    };
    Some((value, at + size))
}

/// Reads a channel id at index `at`.
fn read_channel(bytes: &Vec<u8>, at: usize) -> (r: Option<(ChannelId, usize)>)
    ensures
        match r {
            Some((v, end)) => parse_channel(bytes@, at as int) == Some((v, end as int)),
            None => parse_channel(bytes@, at as int) is None,
        },
{
    match read_varint(bytes, at) {
        Some((value, end)) => {
            if value <= 0xffff {
                Some((value as ChannelId, end))
            } else {
                None
            }
        },
        None => None,
    }
}

/// Reads a payload at index `at`: its length, then as many bytes.
fn read_payload(bytes: &Vec<u8>, at: usize) -> (r: Option<(Vec<u8>, usize)>)
    ensures
        match r {
            Some((v, end)) => parse_payload(bytes@, at as int) == Some((v@, end as int)),
            None => parse_payload(bytes@, at as int) is None,
        },
{
    match read_varint(bytes, at) {
        Some((len, start)) => {
            if start > bytes.len() || len > (bytes.len() - start) as u64 {
                return None;
            }
            let end: usize = start + len as usize;
            let mut out: Vec<u8> = Vec::new();
            let mut i: usize = start;
            while i < end
                invariant
                    start <= i <= end <= bytes@.len(),
                    out@ == bytes@.subrange(start as int, i as int),
                decreases end - i,
            {
                out.push(bytes[i]);
                i = i + 1;
            }
            Some((out, end))
        },
        None => None,
    }
}

/// Reads a message at index `at`.
fn read_single(bytes: &Vec<u8>, at: usize) -> (r: Option<(SingleData, usize)>)
    ensures
        match r {
            Some((m, end)) => parse_single(bytes@, at as int) == Some((m@, end as int)),
            None => parse_single(bytes@, at as int) is None,
        },
{
    let (flag, after_flag) = match read_u8(bytes, at) {
        Some(read) => read,
        None => {
            return None;
        },
    };
    let (id, start) = if flag == 0 {
        (None, after_flag)
    } else if flag == 1 {
        match read_u16(bytes, after_flag) {
            Some((id, after_id)) => (Some(MessageId(id)), after_id),
            None => {
                return None;
            },
        }
    } else {
        return None;
    };
    match read_payload(bytes, start) {
        Some((payload, end)) => Some((SingleData { id, bytes: payload }, end)),
        None => None,
    }
}

/// Reads a fragment at index `at`.
fn read_fragment(bytes: &Vec<u8>, at: usize) -> (r: Option<(FragmentData, usize)>)
    ensures
        match r {
            Some((f, end)) => parse_fragment(bytes@, at as int) == Some((f@, end as int)),
            None => parse_fragment(bytes@, at as int) is None,
        },
{
    let (id, after_id) = match read_u16(bytes, at) {
        Some(read) => read,
        None => {
            return None;
        },
    };
    if after_id > bytes.len() || bytes.len() - after_id < 2 {
        return None;
    }
    let fragment_id: u8 = bytes[after_id];
    let num_fragments: u8 = bytes[after_id + 1];
    match read_payload(bytes, after_id + 2) {
        Some((payload, end)) => Some(
            (
                FragmentData {
                    message_id: MessageId(id),
                    fragment_id,
                    num_fragments,
                    bytes: payload,
                },
                end,
            ),
        ),
        None => None,
    }
}

/// Reads `count` messages at index `at`.
fn read_messages(bytes: &Vec<u8>, at: usize, count: u8) -> (r: Option<(Vec<SingleData>, usize)>)
    ensures
        match r {
            Some((ms, end)) => parse_messages(bytes@, at as int, count as nat, Seq::empty())
                == Some((queue_views(ms@), end as int)),
            None => parse_messages(bytes@, at as int, count as nat, Seq::empty()) is None,
        },
{
    let mut messages: Vec<SingleData> = Vec::new();
    let mut next: usize = at;
    let mut i: u8 = 0;
    assert(queue_views(messages@) =~= Seq::<SingleView>::empty());
    while i < count
        invariant
            i <= count,
            parse_messages(bytes@, at as int, count as nat, Seq::empty()) == parse_messages(
                bytes@,
                next as int,
                (count - i) as nat,
                queue_views(messages@),
            ),
        decreases count - i,
    {
        match read_single(bytes, next) {
            Some((m, end)) => {
                let ghost before = queue_views(messages@);
                messages.push(m);
                assert(queue_views(messages@) =~= before.push(m@));
                next = end;
            },
            None => {
                return None;
            },
        }
        i = i + 1;
    }
    Some((messages, next))
}

/// Reads a block at index `at`.
fn read_block(bytes: &Vec<u8>, at: usize) -> (r: Option<((ChannelId, Vec<SingleData>), usize)>)
    ensures
        match r {
            Some((b, end)) => parse_block(bytes@, at as int) == Some(
                (Block { channel: b.0, messages: queue_views(b.1@) }, end as int),
            ),
            None => parse_block(bytes@, at as int) is None,
        },
{
    let (channel, after_channel) = match read_channel(bytes, at) {
        Some(read) => read,
        None => {
            return None;
        },
    };
    let (count, start) = match read_u8(bytes, after_channel) {
        Some(read) => read,
        None => {
            return None;
        },
    };
    match read_messages(bytes, start, count) {
        Some((messages, end)) => Some(((channel, messages), end)),
        None => None,
    }
}

/// Reads blocks from index `at` up to the end.
fn read_blocks(bytes: &Vec<u8>, at: usize) -> (r: Option<Vec<(ChannelId, Vec<SingleData>)>>)
    ensures
        match r {
            Some(blocks) => parse_blocks(bytes@, at as int, Seq::empty()) == Some(
                block_views(blocks@),
            ),
            None => parse_blocks(bytes@, at as int, Seq::empty()) is None,
        },
{
    let mut blocks: Vec<(ChannelId, Vec<SingleData>)> = Vec::new();
    let mut next: usize = at;
    assert(block_views(blocks@) =~= Seq::<Block>::empty());
    while next < bytes.len()
        invariant
            parse_blocks(bytes@, at as int, Seq::empty()) == parse_blocks(
                bytes@,
                next as int,
                block_views(blocks@),
            ),
        decreases bytes@.len() - next,
    {
        proof {
            lemma_parse_block_advances(bytes@, next as int);
        }
        match read_block(bytes, next) {
            Some((block, end)) => {
                let ghost before = block_views(blocks@);
                let ghost view = Block { channel: block.0, messages: queue_views(block.1@) };
                blocks.push(block);
                assert(block_views(blocks@) =~= before.push(view));
                next = end;
            },
            None => {
                return None;
            },
        }
    }
    Some(blocks)
}

/// Reads the header at the start.
fn read_header(bytes: &Vec<u8>) -> (r: Option<(PacketHeader, usize)>)
    ensures
        match r {
            Some((h, end)) => parse_header(bytes@) == Some((h, end as int)),
            None => parse_header(bytes@) is None,
        },
{
    if bytes.len() < HEADER_BYTES {
        return None;
    }
    let packet_type = match PacketType::from_byte(bytes[0]) {
        Some(t) => t,
        None => {
            return None;
        },
    };
    let (id, _) = match read_u16(bytes, 1) {
        Some(read) => read,
        None => {
            return None;
        },
    };
    let (tick, end) = match read_u16(bytes, 3) {
        Some(read) => read,
        None => {
            return None;
        },
    };
    Some((PacketHeader { packet_type, packet_id: PacketId(id), tick: Tick(tick) }, end))
}

/// Reads a payload: the header, the fragment if the header announces one,
/// and the channel blocks up to the end. Fails if the bytes are not of
/// that form.
pub fn parse_bytes(bytes: &Vec<u8>) -> (r: Result<PacketContents, SerializationError>)
    ensures
        match r {
            Ok(contents) => parse_packet(bytes@) == Some(contents@),
            Err(e) => e is InvalidPacket && parse_packet(bytes@) is None,
        },
{
    let (header, after_header) = match read_header(bytes) {
        Some(read) => read,
        None => {
            return Err(SerializationError::InvalidPacket);
        },
    };
    let (fragment, start) = match header.packet_type {
        PacketType::Data => (None, after_header),
        PacketType::DataFragment => {
            let (channel, after_channel) = match read_channel(bytes, after_header) {
                Some(read) => read,
                None => {
                    return Err(SerializationError::InvalidPacket);
                },
            };
            match read_fragment(bytes, after_channel) {
                Some((fragment, end)) => (Some((channel, fragment)), end),
                None => {
                    return Err(SerializationError::InvalidPacket);
                },
            }
        },
    };
    match read_blocks(bytes, start) {
        Some(blocks) => Ok(PacketContents { header, fragment, blocks }),
        None => Err(SerializationError::InvalidPacket),
    }
}

} // verus!
