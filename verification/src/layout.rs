//! What a packet holds, and the bytes that stand for it.

use crate::header::{PacketHeader, PacketType, HEADER_BYTES};
use crate::message::{ChannelId, FragmentView, MessageAck, SingleView};
use crate::wire::{varint_bytes, varint_size};
use crate::MTU_PAYLOAD_BYTES;
use vstd::prelude::*;

verus! {

/// Most messages that one channel block can announce in its count byte.
pub const MAX_BLOCK_MESSAGES: usize = 255;

/// The serialized messages, one after the other.
pub open spec fn messages_bytes(ms: Seq<SingleView>) -> Seq<u8>
    decreases ms.len(),
{
    if ms.len() == 0 {
        Seq::empty()
    } else {
        messages_bytes(ms.drop_last()) + ms.last().encoding()
    }
}

/// Number of bytes in the serialized messages.
pub open spec fn messages_size(ms: Seq<SingleView>) -> nat
    decreases ms.len(),
{
    if ms.len() == 0 {
        0
    } else {
        messages_size(ms.drop_last()) + ms.last().encoded_len()
    }
}

/// The acknowledgments that the messages ask for, in their order: one for
/// each message that has an id.
pub open spec fn messages_acks(channel: ChannelId, ms: Seq<SingleView>) -> Seq<
    (ChannelId, MessageAck),
>
    decreases ms.len(),
{
    if ms.len() == 0 {
        Seq::empty()
    } else {
        let before = messages_acks(channel, ms.drop_last());
        match ms.last().ack() {
            Some(ack) => before.push((channel, ack)),
            None => before,
        }
    }
}

/// Number of bytes that a block spends before its messages: the channel id
/// and the message count.
pub open spec fn channel_prefix_size(channel: ChannelId) -> nat {
    varint_size(channel as u64) + 1
}

/// Every message of `ms` can be sent whole.
pub open spec fn all_wf(ms: Seq<SingleView>) -> bool {
    forall|i: int| 0 <= i < ms.len() ==> (#[trigger] ms[i]).wf()
}

/// What one more message adds to the serialized messages.
pub proof fn lemma_messages_push(channel: ChannelId, ms: Seq<SingleView>, m: SingleView)
    ensures
        messages_bytes(ms.push(m)) == messages_bytes(ms) + m.encoding(),
        messages_size(ms.push(m)) == messages_size(ms) + m.encoded_len(),
        messages_acks(channel, ms.push(m)) == match m.ack() {
            Some(ack) => messages_acks(channel, ms).push((channel, ack)),
            None => messages_acks(channel, ms),
        },
{
    assert(ms.push(m).drop_last() =~= ms);
}

/// The serialized messages have the size that `messages_size` gives.
pub proof fn lemma_messages_size(ms: Seq<SingleView>)
    ensures
        messages_bytes(ms).len() == messages_size(ms),
    decreases ms.len(),
{
    if ms.len() > 0 {
        lemma_messages_size(ms.drop_last());
        ms.last().lemma_encoded_len();
    }
}

/// Number of the messages that have an id.
pub open spec fn identified(ms: Seq<SingleView>) -> nat
    decreases ms.len(),
{
    if ms.len() == 0 {
        0
    } else {
        identified(ms.drop_last()) + if ms.last().id is Some {
            1nat
        } else {
            0nat
        }
    }
}

/// As many acknowledgments are asked for as messages have an id.
pub proof fn lemma_acks_count(channel: ChannelId, ms: Seq<SingleView>)
    ensures
        messages_acks(channel, ms).len() == identified(ms),
    decreases ms.len(),
{
    if ms.len() > 0 {
        lemma_acks_count(channel, ms.drop_last());
    }
}

/// The acknowledgment of a message with an id is among those asked for,
/// under the channel; the lemma gives its index.
pub proof fn lemma_ack_of_message(channel: ChannelId, ms: Seq<SingleView>, i: int) -> (k: int)
    requires
        0 <= i < ms.len(),
        ms[i].ack() is Some,
    ensures
        0 <= k < messages_acks(channel, ms).len(),
        messages_acks(channel, ms)[k] == (channel, ms[i].ack().unwrap()),
    decreases ms.len(),
{
    if i < ms.len() - 1 {
        lemma_ack_of_message(channel, ms.drop_last(), i)
    } else {
        messages_acks(channel, ms).len() - 1
    }
}

/// The messages of one channel that share a packet.
pub struct Block {
    pub channel: ChannelId,
    pub messages: Seq<SingleView>,
}

impl Block {
    /// The block holds at least one message and no more than its count byte
    /// can announce, each of them short enough to be sent whole.
    pub open spec fn valid(self) -> bool {
        &&& 1 <= self.messages.len() <= MAX_BLOCK_MESSAGES
        &&& all_wf(self.messages)
    }

    /// The serialized block: channel id, message count, messages.
    pub open spec fn encoding(self) -> Seq<u8> {
        varint_bytes(self.channel as u64) + seq![self.messages.len() as u8] + messages_bytes(
            self.messages,
        )
    }

    /// Number of bytes in the serialized block.
    pub open spec fn size(self) -> nat {
        channel_prefix_size(self.channel) + messages_size(self.messages)
    }

    /// The acknowledgments that the block's messages ask for.
    pub open spec fn acks(self) -> Seq<(ChannelId, MessageAck)> {
        messages_acks(self.channel, self.messages)
    }

    /// The serialized block has the size that `size` gives.
    pub proof fn lemma_size(self)
        ensures
            self.encoding().len() == self.size(),
    {
        lemma_messages_size(self.messages);
    }
}

/// The serialized blocks, one after the other.
pub open spec fn blocks_bytes(bs: Seq<Block>) -> Seq<u8>
    decreases bs.len(),
{
    if bs.len() == 0 {
        Seq::empty()
    } else {
        blocks_bytes(bs.drop_last()) + bs.last().encoding()
    }
}

/// Number of bytes in the serialized blocks.
pub open spec fn blocks_size(bs: Seq<Block>) -> nat
    decreases bs.len(),
{
    if bs.len() == 0 {
        0
    } else {
        blocks_size(bs.drop_last()) + bs.last().size()
    }
}

/// The acknowledgments that the blocks ask for, in their order.
pub open spec fn blocks_acks(bs: Seq<Block>) -> Seq<(ChannelId, MessageAck)>
    decreases bs.len(),
{
    if bs.len() == 0 {
        Seq::empty()
    } else {
        blocks_acks(bs.drop_last()) + bs.last().acks()
    }
}

/// Number of the messages in the blocks that have an id.
pub open spec fn blocks_identified(bs: Seq<Block>) -> nat
    decreases bs.len(),
{
    if bs.len() == 0 {
        0
    } else {
        blocks_identified(bs.drop_last()) + identified(bs.last().messages)
    }
}

/// As many acknowledgments are asked for as messages in the blocks have an
/// id.
pub proof fn lemma_blocks_acks_len(bs: Seq<Block>)
    ensures
        blocks_acks(bs).len() == blocks_identified(bs),
    decreases bs.len(),
{
    if bs.len() > 0 {
        lemma_blocks_acks_len(bs.drop_last());
        lemma_acks_count(bs.last().channel, bs.last().messages);
    }
}

/// The acknowledgments of each block are among those of the blocks; the
/// lemma gives the index of one of them.
pub proof fn lemma_ack_of_block(bs: Seq<Block>, b: int, k: int) -> (at: int)
    requires
        0 <= b < bs.len(),
        0 <= k < bs[b].acks().len(),
    ensures
        0 <= at < blocks_acks(bs).len(),
        blocks_acks(bs)[at] == bs[b].acks()[k],
    decreases bs.len(),
{
    if b < bs.len() - 1 {
        lemma_ack_of_block(bs.drop_last(), b, k)
    } else {
        blocks_acks(bs.drop_last()).len() + k
    }
}

/// The serialized blocks have the size that `blocks_size` gives.
pub proof fn lemma_blocks_size(bs: Seq<Block>)
    ensures
        blocks_bytes(bs).len() == blocks_size(bs),
    decreases bs.len(),
{
    if bs.len() > 0 {
        lemma_blocks_size(bs.drop_last());
        bs.last().lemma_size();
    }
}

/// What a packet holds: its header, at most one fragment, and the channel
/// blocks behind it.
pub struct PacketLayout {
    pub header: PacketHeader,
    pub fragment: Option<(ChannelId, FragmentView)>,
    pub blocks: Seq<Block>,
}

impl PacketLayout {
    /// A packet of channel blocks that holds nothing yet.
    pub open spec fn single(header: PacketHeader) -> PacketLayout {
        PacketLayout { header, fragment: None, blocks: Seq::empty() }
    }

    /// A packet that holds one fragment of a message of `channel`.
    pub open spec fn fragmented(
        header: PacketHeader,
        channel: ChannelId,
        fragment: FragmentView,
    ) -> PacketLayout {
        PacketLayout { header, fragment: Some((channel, fragment)), blocks: Seq::empty() }
    }

    /// The same packet with one more block at its end.
    pub open spec fn push_block(self, block: Block) -> PacketLayout {
        PacketLayout { blocks: self.blocks.push(block), ..self }
    }

    /// The serialized fragment with its channel id, or nothing.
    pub open spec fn fragment_bytes(self) -> Seq<u8> {
        match self.fragment {
            Some((channel, fragment)) => varint_bytes(channel as u64) + fragment.encoding(),
            None => Seq::empty(),
        }
    }

    /// Number of bytes that the fragment and its channel id take.
    pub open spec fn fragment_size(self) -> nat {
        match self.fragment {
            Some((channel, fragment)) => varint_size(channel as u64) + fragment.encoded_len(),
            None => 0,
        }
    }

    /// The payload: header, fragment if any, blocks.
    pub open spec fn encoding(self) -> Seq<u8> {
        self.header.encoding() + self.fragment_bytes() + blocks_bytes(self.blocks)
    }

    /// Number of bytes in the payload.
    pub open spec fn size(self) -> nat {
        HEADER_BYTES as nat + self.fragment_size() + blocks_size(self.blocks)
    }

    /// The acknowledgments that the packet's content asks for: the
    /// fragment's, then one for each message that has an id, in the order in
    /// which the messages stand in the packet.
    pub open spec fn acks(self) -> Seq<(ChannelId, MessageAck)> {
        (match self.fragment {
            Some((channel, fragment)) => seq![(channel, fragment.ack())],
            None => Seq::empty(),
        }) + blocks_acks(self.blocks)
    }

    /// Whether the packet may take channel blocks: it holds no fragment, or
    /// the last fragment of a message.
    pub open spec fn takes_blocks(self) -> bool {
        self.fragment matches Some((_, fragment)) ==> fragment.is_last_fragment()
    }

    /// The layout of a packet that may be sent: its type says whether it
    /// holds a fragment, a fragment that is not the last of its message
    /// stands alone, every part is well formed, and the payload is no longer
    /// than a packet may be.
    pub open spec fn valid(self) -> bool {
        &&& self.header.packet_type == PacketType::DataFragment <==> self.fragment is Some
        &&& self.fragment matches Some((_, fragment)) ==> fragment.wf()
        &&& self.blocks.len() > 0 ==> self.takes_blocks()
        &&& forall|i: int| 0 <= i < self.blocks.len() ==> (#[trigger] self.blocks[i]).valid()
        &&& self.size() <= MTU_PAYLOAD_BYTES
    }

    /// The payload has the size that `size` gives.
    pub proof fn lemma_size(self)
        ensures
            self.encoding().len() == self.size(),
    {
        lemma_blocks_size(self.blocks);
    }

    /// **Acknowledgments stand with the bytes.** The packet asks for the
    /// acknowledgment of each message with an id in each of its blocks,
    /// under the block's channel.
    pub proof fn lemma_message_ack_asked(self, b: int, i: int)
        requires
            0 <= b < self.blocks.len(),
            0 <= i < self.blocks[b].messages.len(),
            self.blocks[b].messages[i].ack() is Some,
        ensures
            self.acks().contains(
                (self.blocks[b].channel, self.blocks[b].messages[i].ack().unwrap()),
            ),
    {
        let block = self.blocks[b];
        let k = lemma_ack_of_message(block.channel, block.messages, i);
        let at = lemma_ack_of_block(self.blocks, b, k);
        let offset = self.acks().len() - blocks_acks(self.blocks).len();
        assert(self.acks()[offset + at] == (block.channel, block.messages[i].ack().unwrap()));
    }

    /// The packet asks for the acknowledgment of its fragment, first of
    /// all.
    pub proof fn lemma_fragment_ack_asked(self)
        requires
            self.fragment is Some,
        ensures
            self.acks().len() > 0,
            self.fragment matches Some((channel, fragment)) ==> self.acks()[0] == (
                channel,
                fragment.ack(),
            ),
    {
    }

    /// **One acknowledgment for each part with an id.** The packet asks
    /// for as many acknowledgments as it holds fragments and messages with
    /// an id.
    pub proof fn lemma_acks_len(self)
        ensures
            self.acks().len() == blocks_identified(self.blocks) + if self.fragment is Some {
                1nat
            } else {
                0nat
            },
    {
        lemma_blocks_acks_len(self.blocks);
    }

    /// What one more block adds to the payload, to its size and to its
    /// acknowledgments.
    pub proof fn lemma_push_block(self, block: Block)
        ensures
            self.push_block(block).encoding() == self.encoding() + block.encoding(),
            self.push_block(block).size() == self.size() + block.size(),
            self.push_block(block).acks() == self.acks() + block.acks(),
    {
        assert(self.blocks.push(block).drop_last() =~= self.blocks);
    }
}

} // verus!
