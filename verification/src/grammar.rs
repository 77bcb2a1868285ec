//! How a payload is read, and the proof that reading gives back what was
//! written.

use crate::header::{PacketHeader, PacketId, PacketType, Tick, HEADER_BYTES};
use crate::layout::{all_wf, blocks_bytes, messages_bytes, Block, PacketLayout};
use crate::message::{ChannelId, FragmentView, MessageId, SingleView};
use crate::wire::{be16, lemma_varint_size, varint_bytes, varint_size, VARINT_LIMIT};
use vstd::prelude::*;

verus! {

/// Reads one byte at index `at`. Gives the byte and the index behind it.
pub open spec fn parse_u8(s: Seq<u8>, at: int) -> Option<(u8, int)> {
    if 0 <= at < s.len() {
        Some((s[at], at + 1))
    } else {
        None
    }
}

/// Reads two bytes at index `at`, most significant first.
pub open spec fn parse_u16(s: Seq<u8>, at: int) -> Option<(u16, int)> {
    if 0 <= at && at + 2 <= s.len() {
        Some(((s[at] * 0x100 + s[at + 1]) as u16, at + 2))
    } else {
        None
    }
}

/// Number of bytes of the variable-length value whose first byte is
/// `first`.
pub open spec fn varint_size_of(first: u8) -> int {
    if first < 0x40 {
        1
    } else if first < 0x80 {
        2
    } else if first < 0xc0 {
        4
    } else {
        8
    }
}

/// Reads a variable-length value at index `at`: the two top bits of the
/// first byte give the number of bytes, the other bits are the value, most
/// significant first.
pub open spec fn parse_varint(s: Seq<u8>, at: int) -> Option<(u64, int)> {
    if 0 <= at < s.len() && at + varint_size_of(s[at]) <= s.len() {
        let size = varint_size_of(s[at]);
        let value = if size == 1 {
            s[at] as int
        } else if size == 2 {
            (s[at] - 0x40) * 0x100 + s[at + 1]
        } else if size == 4 {
            (s[at] - 0x80) * 0x100_0000 + s[at + 1] * 0x1_0000 + s[at + 2] * 0x100 + s[at + 3]
        } else {
            (s[at] - 0xc0) * 0x100_0000_0000_0000 + s[at + 1] * 0x1_0000_0000_0000 + s[at + 2]
                * 0x100_0000_0000 + s[at + 3] * 0x1_0000_0000 + s[at + 4] * 0x100_0000 + s[at
                + 5] * 0x1_0000 + s[at + 6] * 0x100 + s[at + 7]
        };
        Some((value as u64, at + size))
    } else {
        None
    }
}

/// Reads a channel id at index `at`: a variable-length value that is small
/// enough to be one.
pub open spec fn parse_channel(s: Seq<u8>, at: int) -> Option<(ChannelId, int)> {
    match parse_varint(s, at) {
        Some((value, end)) => if value <= u16::MAX {
            Some((value as ChannelId, end))
        } else {
            None
        },
        None => None,
    }
}

/// Reads a payload at index `at`: its length, then as many bytes.
pub open spec fn parse_payload(s: Seq<u8>, at: int) -> Option<(Seq<u8>, int)> {
    match parse_varint(s, at) {
        Some((len, start)) => if start + len <= s.len() {
            Some((s.subrange(start, start + len), start + len))
        } else {
            None
        },
        None => None,
    }
}

/// Reads the payload of a message with the identifier `id` at index `at`.
pub open spec fn parse_single_body(s: Seq<u8>, at: int, id: Option<MessageId>) -> Option<
    (SingleView, int),
> {
    match parse_payload(s, at) {
        Some((bytes, end)) => Some((SingleView { id, bytes }, end)),
        None => None,
    }
}

/// Reads a message at index `at`: a byte that says whether it has an
/// identifier, the identifier, the payload.
pub open spec fn parse_single(s: Seq<u8>, at: int) -> Option<(SingleView, int)> {
    match parse_u8(s, at) {
        Some((flag, after_flag)) => if flag == 0 {
            parse_single_body(s, after_flag, None)
        } else if flag == 1 {
            match parse_u16(s, after_flag) {
                Some((id, after_id)) => parse_single_body(s, after_id, Some(MessageId(id))),
                None => None,
            }
        } else {
            None
        },
        None => None,
    }
}

/// Reads a fragment at index `at`.
pub open spec fn parse_fragment(s: Seq<u8>, at: int) -> Option<(FragmentView, int)> {
    match parse_u16(s, at) {
        Some((id, after_id)) => match parse_payload(s, after_id + 2) {
            Some((bytes, end)) => Some(
                (
                    FragmentView {
                        message_id: MessageId(id),
                        fragment_id: s[after_id],
                        num_fragments: s[after_id + 1],
                        bytes,
                    },
                    end,
                ),
            ),
            None => None,
        },
        None => None,
    }
}

/// Reads `count` messages at index `at` and appends them to `read`.
pub open spec fn parse_messages(s: Seq<u8>, at: int, count: nat, read: Seq<SingleView>) -> Option<
    (Seq<SingleView>, int),
>
    decreases count,
{
    if count == 0 {
        Some((read, at))
    } else {
        match parse_single(s, at) {
            Some((m, end)) => parse_messages(s, end, (count - 1) as nat, read.push(m)),
            None => None,
        }
    }
}

/// Reads a block at index `at`: channel id, message count, messages.
pub open spec fn parse_block(s: Seq<u8>, at: int) -> Option<(Block, int)> {
    match parse_channel(s, at) {
        Some((channel, after_channel)) => match parse_u8(s, after_channel) {
            Some((count, start)) => match parse_messages(s, start, count as nat, Seq::empty()) {
                Some((messages, end)) => Some((Block { channel, messages }, end)),
                None => None,
            },
            None => None,
        },
        None => None,
    }
}

/// Reads blocks from index `at` up to the end of `s` and appends them to
/// `read`.
pub open spec fn parse_blocks(s: Seq<u8>, at: int, read: Seq<Block>) -> Option<Seq<Block>>
    decreases s.len() - at,
    via parse_blocks_decreases
{
    if at >= s.len() {
        Some(read)
    } else {
        match parse_block(s, at) {
            Some((block, end)) => parse_blocks(s, end, read.push(block)),
            None => None,
        }
    }
}

#[via_fn]
proof fn parse_blocks_decreases(s: Seq<u8>, at: int, read: Seq<Block>) {
    if at < s.len() {
        lemma_parse_block_advances(s, at);
    }
}

/// Reading messages never goes back.
pub proof fn lemma_parse_messages_advances(s: Seq<u8>, at: int, count: nat, read: Seq<SingleView>)
    ensures
        parse_messages(s, at, count, read) matches Some((_, end)) ==> at <= end <= s.len() || (
        count == 0 && end == at),
    decreases count,
{
    if count > 0 {
        match parse_single(s, at) {
            Some((m, end)) => {
                lemma_parse_messages_advances(s, end, (count - 1) as nat, read.push(m));
            },
            None => {},
        }
    }
}

/// A block that can be read ends behind the index at which it starts, and
/// inside `s`.
pub proof fn lemma_parse_block_advances(s: Seq<u8>, at: int)
    ensures
        parse_block(s, at) matches Some((_, end)) ==> at < end <= s.len(),
{
    match parse_channel(s, at) {
        Some((channel, after_channel)) => match parse_u8(s, after_channel) {
            Some((count, start)) => {
                lemma_parse_messages_advances(s, start, count as nat, Seq::empty());
            },
            None => {},
        },
        None => {},
    }
}

/// Reads a header at the start of `s`: packet type, packet id, tick.
pub open spec fn parse_header(s: Seq<u8>) -> Option<(PacketHeader, int)> {
    match (parse_u8(s, 0), parse_u16(s, 1), parse_u16(s, 3)) {
        (Some((code, _)), Some((id, _)), Some((tick, end))) => if code <= 1 {
            Some(
                (
                    PacketHeader {
                        packet_type: if code == 0 {
                            PacketType::Data
                        } else {
                            PacketType::DataFragment
                        },
                        packet_id: PacketId(id),
                        tick: Tick(tick),
                    },
                    end,
                ),
            )
        } else {
            None
        },
        _ => None,
    }
}

/// Reads the blocks of a packet from index `at` on; gives the packet.
pub open spec fn parse_rest(
    s: Seq<u8>,
    at: int,
    header: PacketHeader,
    fragment: Option<(ChannelId, FragmentView)>,
) -> Option<PacketLayout> {
    match parse_blocks(s, at, Seq::empty()) {
        Some(blocks) => Some(PacketLayout { header, fragment, blocks }),
        None => None,
    }
}

/// Reads a payload: the header; if the header announces a fragment, a
/// channel id and the fragment; then blocks up to the end.
pub open spec fn parse_packet(s: Seq<u8>) -> Option<PacketLayout> {
    match parse_header(s) {
        Some((header, after_header)) => match header.packet_type {
            PacketType::Data => parse_rest(s, after_header, header, None),
            PacketType::DataFragment => match parse_channel(s, after_header) {
                Some((channel, after_channel)) => match parse_fragment(s, after_channel) {
                    Some((fragment, end)) => parse_rest(s, end, header, Some((channel, fragment))),
                    None => None,
                },
                None => None,
            },
        },
        None => None,
    }
}

/// Where `s` holds two sequences one after the other, it holds each of
/// them.
pub proof fn lemma_split(s: Seq<u8>, at: int, first: Seq<u8>, second: Seq<u8>)
    requires
        0 <= at,
        at + first.len() + second.len() <= s.len(),
        s.subrange(at, at + first.len() + second.len()) == first + second,
    ensures
        s.subrange(at, at + first.len()) == first,
        s.subrange(at + first.len(), at + first.len() + second.len()) == second,
{
    let whole = s.subrange(at, at + first.len() + second.len());
    assert forall|i: int| 0 <= i < first.len() implies s.subrange(at, at + first.len())[i]
        == first[i] by {}
    assert forall|i: int| 0 <= i < second.len() implies s.subrange(
        at + first.len(),
        at + first.len() + second.len(),
    )[i] == second[i] by {
        assert(whole[first.len() + i] == (first + second)[first.len() + i]);
    }
    assert(s.subrange(at + first.len(), at + first.len() + second.len()) =~= second);
}

/// Two bytes that were written for `v` are read as `v`.
pub proof fn lemma_parse_u16(s: Seq<u8>, at: int, v: u16)
    requires
        0 <= at,
        at + 2 <= s.len(),
        s.subrange(at, at + 2) == be16(v),
    ensures
        parse_u16(s, at) == Some((v, at + 2)),
{
}

/// The four bytes of a value in the third length class give the value
/// back.
proof fn lemma_varint_four(v: u64)
    requires
        0x4000 <= v < 0x4000_0000,
    ensures
        ({
            let high = be16((0x8000 + v / 0x1_0000) as u16);
            let low = be16((v % 0x1_0000) as u16);
            0x80 <= high[0] < 0xc0 && (high[0] - 0x80) * 0x100_0000 + high[1] * 0x1_0000 + low[0]
                * 0x100 + low[1] == v
        }),
{
    let a = (0x8000 + v / 0x1_0000) as int;
    let d = (v % 0x1_0000) as int;
    assert(v == (a - 0x8000) * 0x1_0000 + d);
    assert(a == (a / 256) * 256 + a % 256);
    assert(d == (d / 256) * 256 + d % 256);
}

/// The eight bytes of a value in the last length class give the value
/// back.
proof fn lemma_varint_eight(v: u64)
    requires
        0x4000_0000 <= v < VARINT_LIMIT,
    ensures
        ({
            let a = be16((0xc000 + v / 0x1_0000_0000_0000) as u16);
            let b = be16(((v / 0x1_0000_0000) % 0x1_0000) as u16);
            let c = be16(((v / 0x1_0000) % 0x1_0000) as u16);
            let d = be16((v % 0x1_0000) as u16);
            0xc0 <= a[0] && (a[0] - 0xc0) * 0x100_0000_0000_0000 + a[1] * 0x1_0000_0000_0000
                + b[0] * 0x100_0000_0000 + b[1] * 0x1_0000_0000 + c[0] * 0x100_0000 + c[1]
                * 0x1_0000 + d[0] * 0x100 + d[1] == v
        }),
{
    let a = (0xc000 + v / 0x1_0000_0000_0000) as int;
    let b = ((v / 0x1_0000_0000) % 0x1_0000) as int;
    let c = ((v / 0x1_0000) % 0x1_0000) as int;
    let d = (v % 0x1_0000) as int;
    let top = (v / 0x1_0000) as int;
    let upper = (v / 0x1_0000_0000) as int;
    assert(v == top * 0x1_0000 + d);
    assert(top == upper * 0x1_0000 + c);
    assert(upper == (a - 0xc000) * 0x1_0000 + b);
    assert(v == (a - 0xc000) * 0x1_0000_0000_0000 + b * 0x1_0000_0000 + c * 0x1_0000 + d);
}

/// The bytes that were written for `v` are read as `v`.
pub proof fn lemma_parse_varint(s: Seq<u8>, at: int, v: u64)
    requires
        v < VARINT_LIMIT,
        0 <= at,
        at + varint_size(v) <= s.len(),
        s.subrange(at, at + varint_size(v)) == varint_bytes(v),
    ensures
        parse_varint(s, at) == Some((v, at + varint_size(v))),
{
    let e = varint_bytes(v);
    lemma_varint_size(v);
    if v < 0x4000 {
        assert(s[at] == e[0]);
    } else if v < 0x4000_0000 {
        assert(s[at] == e[0] && s[at + 1] == e[1] && s[at + 2] == e[2] && s[at + 3] == e[3]);
        lemma_varint_four(v);
    } else {
        assert(s[at] == e[0] && s[at + 1] == e[1] && s[at + 2] == e[2] && s[at + 3] == e[3]);
        assert(s[at + 4] == e[4] && s[at + 5] == e[5] && s[at + 6] == e[6] && s[at + 7]
            == e[7]);
        lemma_varint_eight(v);
    }
}

/// The bytes that were written for a channel id are read as that id.
pub proof fn lemma_parse_channel(s: Seq<u8>, at: int, channel: ChannelId)
    requires
        0 <= at,
        at + varint_size(channel as u64) <= s.len(),
        s.subrange(at, at + varint_size(channel as u64)) == varint_bytes(channel as u64),
    ensures
        parse_channel(s, at) == Some((channel, at + varint_size(channel as u64))),
{
    lemma_parse_varint(s, at, channel as u64);
}

/// A payload that was written with its length is read as it was.
pub proof fn lemma_parse_payload(s: Seq<u8>, at: int, bytes: Seq<u8>)
    requires
        bytes.len() < VARINT_LIMIT,
        0 <= at,
        at + varint_size(bytes.len() as u64) + bytes.len() <= s.len(),
        s.subrange(at, at + varint_size(bytes.len() as u64) + bytes.len()) == varint_bytes(
            bytes.len() as u64,
        ) + bytes,
    ensures
        parse_payload(s, at) == Some(
            (bytes, at + varint_size(bytes.len() as u64) + bytes.len()),
        ),
{
    let len = bytes.len() as u64;
    lemma_split(s, at, varint_bytes(len), bytes);
    lemma_parse_varint(s, at, len);
}

/// A message that was written is read as it was.
pub proof fn lemma_parse_single(s: Seq<u8>, at: int, m: SingleView)
    requires
        m.wf(),
        0 <= at,
        at + m.encoded_len() <= s.len(),
        s.subrange(at, at + m.encoded_len()) == m.encoding(),
    ensures
        parse_single(s, at) == Some((m, at + m.encoded_len())),
{
    let len = m.bytes.len() as u64;
    let body = varint_bytes(len) + m.bytes;
    match m.id {
        Some(id) => {
            assert(m.encoding() =~= (seq![1u8] + be16(id.0)) + body);
            lemma_split(s, at, seq![1u8] + be16(id.0), body);
            lemma_split(s, at, seq![1u8], be16(id.0));
            assert(s.subrange(at, at + 1)[0] == s[at]);
            lemma_parse_payload(s, at + 3, m.bytes);
        },
        None => {
            assert(m.encoding() =~= seq![0u8] + body);
            lemma_split(s, at, seq![0u8], body);
            assert(s.subrange(at, at + 1)[0] == s[at]);
            lemma_parse_payload(s, at + 1, m.bytes);
        },
    }
}

/// A fragment that was written is read as it was.
pub proof fn lemma_parse_fragment(s: Seq<u8>, at: int, f: FragmentView)
    requires
        f.wf(),
        0 <= at,
        at + f.encoded_len() <= s.len(),
        s.subrange(at, at + f.encoded_len()) == f.encoding(),
    ensures
        parse_fragment(s, at) == Some((f, at + f.encoded_len())),
{
    let len = f.bytes.len() as u64;
    let body = varint_bytes(len) + f.bytes;
    let indices = seq![f.fragment_id, f.num_fragments];
    assert(f.encoding() =~= (be16(f.message_id.0) + indices) + body);
    lemma_split(s, at, be16(f.message_id.0) + indices, body);
    lemma_split(s, at, be16(f.message_id.0), indices);
    lemma_parse_payload(s, at + 4, f.bytes);
}

/// The serialized messages are the first of them and, behind it, the
/// others.
pub proof fn lemma_messages_bytes_front(ms: Seq<SingleView>)
    requires
        ms.len() > 0,
    ensures
        messages_bytes(ms) == ms[0].encoding() + messages_bytes(ms.drop_first()),
    decreases ms.len(),
{
    if ms.len() == 1 {
        assert(ms.drop_last() =~= Seq::<SingleView>::empty());
        assert(ms.drop_first() =~= Seq::<SingleView>::empty());
    } else {
        lemma_messages_bytes_front(ms.drop_last());
        assert(ms.drop_last().drop_first() =~= ms.drop_first().drop_last());
    }
}

/// The serialized blocks are the first of them and, behind it, the others.
pub proof fn lemma_blocks_bytes_front(bs: Seq<Block>)
    requires
        bs.len() > 0,
    ensures
        blocks_bytes(bs) == bs[0].encoding() + blocks_bytes(bs.drop_first()),
    decreases bs.len(),
{
    if bs.len() == 1 {
        assert(bs.drop_last() =~= Seq::<Block>::empty());
        assert(bs.drop_first() =~= Seq::<Block>::empty());
    } else {
        lemma_blocks_bytes_front(bs.drop_last());
        assert(bs.drop_last().drop_first() =~= bs.drop_first().drop_last());
    }
}

/// Messages that were written one after the other are read as they were.
pub proof fn lemma_parse_messages(s: Seq<u8>, at: int, ms: Seq<SingleView>, read: Seq<SingleView>)
    requires
        all_wf(ms),
        0 <= at,
        at + messages_bytes(ms).len() <= s.len(),
        s.subrange(at, at + messages_bytes(ms).len()) == messages_bytes(ms),
    ensures
        parse_messages(s, at, ms.len(), read) == Some(
            (read + ms, at + messages_bytes(ms).len()),
        ),
    decreases ms.len(),
{
    if ms.len() > 0 {
        let first = ms[0];
        let rest = ms.drop_first();
        lemma_messages_bytes_front(ms);
        lemma_split(s, at, first.encoding(), messages_bytes(rest));
        lemma_parse_single(s, at, first);
        lemma_parse_messages(s, at + first.encoded_len(), rest, read.push(first));
    }
}

/// A block that was written is read as it was.
pub proof fn lemma_parse_block(s: Seq<u8>, at: int, block: Block)
    requires
        block.valid(),
        0 <= at,
        at + block.encoding().len() <= s.len(),
        s.subrange(at, at + block.encoding().len()) == block.encoding(),
    ensures
        parse_block(s, at) == Some((block, at + block.encoding().len())),
{
    let channel = varint_bytes(block.channel as u64);
    let count = seq![block.messages.len() as u8];
    let messages = messages_bytes(block.messages);
    lemma_split(s, at, channel + count, messages);
    lemma_split(s, at, channel, count);
    lemma_parse_channel(s, at, block.channel);
    assert(s.subrange(at + channel.len(), at + channel.len() + 1)[0] == s[at + channel.len()]);
    lemma_parse_messages(s, at + channel.len() + 1, block.messages, Seq::empty());
}

/// Blocks that were written up to the end of `s` are read as they were.
pub proof fn lemma_parse_blocks(s: Seq<u8>, at: int, blocks: Seq<Block>, read: Seq<Block>)
    requires
        forall|i: int| 0 <= i < blocks.len() ==> (#[trigger] blocks[i]).valid(),
        0 <= at,
        at + blocks_bytes(blocks).len() == s.len(),
        s.subrange(at, s.len() as int) == blocks_bytes(blocks),
    ensures
        parse_blocks(s, at, read) == Some(read + blocks),
    decreases blocks.len(),
{
    if blocks.len() > 0 {
        let first = blocks[0];
        let rest = blocks.drop_first();
        lemma_blocks_bytes_front(blocks);
        first.lemma_size();
        lemma_split(s, at, first.encoding(), blocks_bytes(rest));
        lemma_parse_block(s, at, first);
        lemma_parse_blocks(s, at + first.encoding().len(), rest, read.push(first));
    }
}

/// A header that was written at the start of `s` is read as it was.
pub proof fn lemma_parse_header(s: Seq<u8>, header: PacketHeader)
    requires
        HEADER_BYTES <= s.len(),
        s.subrange(0, HEADER_BYTES as int) == header.encoding(),
    ensures
        parse_header(s) == Some((header, HEADER_BYTES as int)),
{
    let code = seq![header.packet_type.code()];
    let id = be16(header.packet_id.0);
    let tick = be16(header.tick.0);
    assert(header.encoding() =~= code + (id + tick));
    lemma_split(s, 0, code, id + tick);
    lemma_split(s, 1, id, tick);
    assert(s.subrange(0, 1)[0] == s[0]);
    lemma_parse_u16(s, 1, header.packet_id.0);
}

/// A fragment that was written with its channel id is read as it was.
pub proof fn lemma_parse_fragment_part(
    s: Seq<u8>,
    at: int,
    channel: ChannelId,
    fragment: FragmentView,
)
    requires
        fragment.wf(),
        0 <= at,
        at + varint_size(channel as u64) + fragment.encoded_len() <= s.len(),
        s.subrange(at, at + varint_size(channel as u64) + fragment.encoded_len()) == varint_bytes(
            channel as u64,
        ) + fragment.encoding(),
    ensures
        parse_channel(s, at) == Some((channel, at + varint_size(channel as u64))),
        parse_fragment(s, at + varint_size(channel as u64)) == Some(
            (fragment, at + varint_size(channel as u64) + fragment.encoded_len()),
        ),
{
    lemma_varint_size(channel as u64);
    fragment.lemma_encoded_len();
    lemma_split(s, at, varint_bytes(channel as u64), fragment.encoding());
    lemma_parse_channel(s, at, channel);
    lemma_parse_fragment(s, at + varint_size(channel as u64), fragment);
}

/// Where the parts of a payload stand in it.
proof fn lemma_payload_parts(layout: PacketLayout)
    ensures
        ({
            let s = layout.encoding();
            let start = HEADER_BYTES + layout.fragment_bytes().len();
            &&& start + blocks_bytes(layout.blocks).len() == s.len()
            &&& s.subrange(0, HEADER_BYTES as int) == layout.header.encoding()
            &&& s.subrange(HEADER_BYTES as int, start) == layout.fragment_bytes()
            &&& s.subrange(start, s.len() as int) == blocks_bytes(layout.blocks)
        }),
{
    let s = layout.encoding();
    let header = layout.header.encoding();
    let fragment = layout.fragment_bytes();
    let blocks = blocks_bytes(layout.blocks);
    assert(s =~= header + (fragment + blocks));
    assert(s.subrange(0, s.len() as int) =~= s);
    lemma_split(s, 0, header, fragment + blocks);
    lemma_split(s, HEADER_BYTES as int, fragment, blocks);
}

/// **Round trip.** The payload of a well-formed packet is read as the
/// packet: what was packed can be recovered from the bytes that are sent.
pub proof fn lemma_parse_packet(layout: PacketLayout)
    requires
        layout.valid(),
    ensures
        parse_packet(layout.encoding()) == Some(layout),
{
    let s = layout.encoding();
    let start = HEADER_BYTES + layout.fragment_bytes().len();
    lemma_payload_parts(layout);
    assert(parse_header(s) == Some((layout.header, HEADER_BYTES as int))) by {
        lemma_parse_header(s, layout.header);
    }
    assert(parse_rest(s, start, layout.header, layout.fragment) == Some(layout)) by {
        lemma_parse_blocks(s, start, layout.blocks, Seq::empty());
    }
    match layout.fragment {
        Some((channel, f)) => {
            assert(parse_channel(s, HEADER_BYTES as int) == Some(
                (channel, HEADER_BYTES + varint_size(channel as u64)),
            ) && parse_fragment(s, HEADER_BYTES + varint_size(channel as u64)) == Some(
                (f, start),
            )) by {
                lemma_varint_size(channel as u64);
                f.lemma_encoded_len();
                lemma_parse_fragment_part(s, HEADER_BYTES as int, channel, f);
            }
        },
        None => {},
    }
}

} // verus!
