//! What a sequence of packets holds for each channel, and how a step of
//! packing adds to it.

use crate::layout::{Block, PacketLayout};
use crate::message::{ChannelId, FragmentView, SingleView};
use vstd::prelude::*;

verus! {

/// The messages that the blocks hold for `channel`, in their order.
pub open spec fn blocks_singles(blocks: Seq<Block>, channel: ChannelId) -> Seq<SingleView>
    decreases blocks.len(),
{
    if blocks.len() == 0 {
        Seq::empty()
    } else {
        blocks_singles(blocks.drop_last(), channel) + blocks.last().singles_of(channel)
    }
}

impl Block {
    /// The messages that the block holds for `channel`.
    pub open spec fn singles_of(self, channel: ChannelId) -> Seq<SingleView> {
        if self.channel == channel {
            self.messages
        } else {
            Seq::empty()
        }
    }
}

impl PacketLayout {
    /// The messages that the packet holds for `channel`, in their order.
    pub open spec fn singles_of(self, channel: ChannelId) -> Seq<SingleView> {
        blocks_singles(self.blocks, channel)
    }

    /// The fragment that the packet holds for `channel`, if it holds one.
    pub open spec fn fragments_of(self, channel: ChannelId) -> Seq<FragmentView> {
        match self.fragment {
            Some((c, fragment)) => if c == channel {
                seq![fragment]
            } else {
                Seq::empty()
            },
            None => Seq::empty(),
        }
    }

    /// The channels of the packet's parts, in their order: that of the
    /// fragment, then that of each block.
    pub open spec fn channels(self) -> Seq<ChannelId> {
        (match self.fragment {
            Some((c, _)) => seq![c],
            None => Seq::empty(),
        }) + self.blocks.map_values(|b: Block| b.channel)
    }

    /// What one more block adds to what the packet holds.
    pub proof fn lemma_push_block_content(self, block: Block, channel: ChannelId)
        ensures
            self.push_block(block).singles_of(channel) == self.singles_of(channel)
                + block.singles_of(channel),
            self.push_block(block).fragments_of(channel) == self.fragments_of(channel),
            self.push_block(block).channels() == self.channels().push(block.channel),
    {
        assert(self.blocks.push(block).drop_last() =~= self.blocks);
    }
}

/// The messages that the packets hold for `channel`, in the order in which
/// they are sent.
pub open spec fn packets_singles(packets: Seq<PacketLayout>, channel: ChannelId) -> Seq<SingleView>
    decreases packets.len(),
{
    if packets.len() == 0 {
        Seq::empty()
    } else {
        packets_singles(packets.drop_last(), channel) + packets.last().singles_of(channel)
    }
}

/// The fragments that the packets hold for `channel`, in the order in which
/// they are sent.
pub open spec fn packets_fragments(packets: Seq<PacketLayout>, channel: ChannelId) -> Seq<
    FragmentView,
>
    decreases packets.len(),
{
    if packets.len() == 0 {
        Seq::empty()
    } else {
        packets_fragments(packets.drop_last(), channel) + packets.last().fragments_of(channel)
    }
}

/// The channels of the parts of the packets, in the order in which the
/// parts are sent.
pub open spec fn packets_channels(packets: Seq<PacketLayout>) -> Seq<ChannelId>
    decreases packets.len(),
{
    if packets.len() == 0 {
        Seq::empty()
    } else {
        packets_channels(packets.drop_last()) + packets.last().channels()
    }
}

/// What one more packet adds to what the packets hold.
pub proof fn lemma_push_packet(packets: Seq<PacketLayout>, packet: PacketLayout, channel: ChannelId)
    ensures
        packets_singles(packets.push(packet), channel) == packets_singles(packets, channel)
            + packet.singles_of(channel),
        packets_fragments(packets.push(packet), channel) == packets_fragments(packets, channel)
            + packet.fragments_of(channel),
        packets_channels(packets.push(packet)) == packets_channels(packets) + packet.channels(),
{
    assert(packets.push(packet).drop_last() =~= packets);
}

/// `after` is `before` followed by parts of `channel` only.
pub open spec fn tail_is(
    before: Seq<ChannelId>,
    after: Seq<ChannelId>,
    channel: ChannelId,
) -> bool {
    &&& before.len() <= after.len()
    &&& after.take(before.len() as int) == before
    &&& forall|i: int| before.len() <= i < after.len() ==> after[i] == channel
}

/// The packets `after` hold what the packets `before` hold and, behind it,
/// the given messages and fragments of `channel`, and nothing else.
pub open spec fn adds(
    before: Seq<PacketLayout>,
    after: Seq<PacketLayout>,
    channel: ChannelId,
    singles: Seq<SingleView>,
    fragments: Seq<FragmentView>,
) -> bool {
    &&& packets_singles(after, channel) == packets_singles(before, channel) + singles
    &&& packets_fragments(after, channel) == packets_fragments(before, channel) + fragments
    &&& forall|other: ChannelId|
        other != channel ==> #[trigger] packets_singles(after, other) == packets_singles(
            before,
            other,
        )
    &&& forall|other: ChannelId|
        other != channel ==> #[trigger] packets_fragments(after, other) == packets_fragments(
            before,
            other,
        )
    &&& tail_is(packets_channels(before), packets_channels(after), channel)
}

/// Packets add nothing to themselves.
pub proof fn lemma_adds_nothing(packets: Seq<PacketLayout>, channel: ChannelId)
    ensures
        adds(packets, packets, channel, Seq::empty(), Seq::empty()),
{
    let trace = packets_channels(packets);
    assert(trace.take(trace.len() as int) =~= trace);
}

/// What is added in two steps is added in one.
pub proof fn lemma_adds_twice(
    first: Seq<PacketLayout>,
    second: Seq<PacketLayout>,
    third: Seq<PacketLayout>,
    channel: ChannelId,
    singles: Seq<SingleView>,
    fragments: Seq<FragmentView>,
    more_singles: Seq<SingleView>,
    more_fragments: Seq<FragmentView>,
)
    requires
        adds(first, second, channel, singles, fragments),
        adds(second, third, channel, more_singles, more_fragments),
    ensures
        adds(first, third, channel, singles + more_singles, fragments + more_fragments),
{
    assert(packets_singles(third, channel) =~= packets_singles(first, channel) + (singles
        + more_singles));
    assert(packets_fragments(third, channel) =~= packets_fragments(first, channel) + (fragments
        + more_fragments));
    let a = packets_channels(first);
    let b = packets_channels(second);
    let c = packets_channels(third);
    assert(c.take(a.len() as int) =~= a);
    assert forall|i: int| a.len() <= i < c.len() implies c[i] == channel by {
        if i < b.len() {
            assert(c.take(b.len() as int)[i] == b[i]);
        }
    }
}

/// A block that is added to the last packet adds its messages.
pub proof fn lemma_adds_block(closed: Seq<PacketLayout>, packet: PacketLayout, block: Block)
    ensures
        adds(
            closed.push(packet),
            closed.push(packet.push_block(block)),
            block.channel,
            block.messages,
            Seq::empty(),
        ),
{
    let before = closed.push(packet);
    let after = closed.push(packet.push_block(block));
    let channel = block.channel;
    lemma_push_packet(closed, packet, channel);
    lemma_push_packet(closed, packet.push_block(block), channel);
    packet.lemma_push_block_content(block, channel);
    assert(packets_singles(after, channel) =~= packets_singles(before, channel)
        + block.messages);
    assert forall|other: ChannelId| other != channel implies #[trigger] packets_singles(
        after,
        other,
    ) == packets_singles(before, other) by {
        lemma_push_packet(closed, packet, other);
        lemma_push_packet(closed, packet.push_block(block), other);
        packet.lemma_push_block_content(block, other);
    }
    assert forall|other: ChannelId| other != channel implies #[trigger] packets_fragments(
        after,
        other,
    ) == packets_fragments(before, other) by {
        lemma_push_packet(closed, packet, other);
        lemma_push_packet(closed, packet.push_block(block), other);
    }
    let a = packets_channels(before);
    let c = packets_channels(after);
    assert(c.take(a.len() as int) =~= a);
}

/// A new packet without blocks adds the fragment that it holds, if it
/// holds one.
pub proof fn lemma_adds_packet(packets: Seq<PacketLayout>, packet: PacketLayout, channel: ChannelId)
    requires
        packet.blocks.len() == 0,
        packet.fragment matches Some((c, _)) ==> c == channel,
    ensures
        adds(packets, packets.push(packet), channel, Seq::empty(), packet.fragments_of(channel)),
{
    let after = packets.push(packet);
    lemma_push_packet(packets, packet, channel);
    assert forall|other: ChannelId| other != channel implies #[trigger] packets_singles(
        after,
        other,
    ) == packets_singles(packets, other) by {
        lemma_push_packet(packets, packet, other);
    }
    assert forall|other: ChannelId| other != channel implies #[trigger] packets_fragments(
        after,
        other,
    ) == packets_fragments(packets, other) by {
        lemma_push_packet(packets, packet, other);
    }
    let a = packets_channels(packets);
    let c = packets_channels(after);
    assert(c.take(a.len() as int) =~= a);
}

/// Number of the parts that the first `k` packets hold.
pub open spec fn parts_before(packets: Seq<PacketLayout>, k: int) -> int {
    packets_channels(packets.take(k)).len() as int
}

/// The channels of the parts of the first `k` packets stand first among
/// those of all packets.
pub proof fn lemma_parts_prefix(packets: Seq<PacketLayout>, k: int)
    requires
        0 <= k <= packets.len(),
    ensures
        parts_before(packets, k) <= packets_channels(packets).len(),
        packets_channels(packets).take(parts_before(packets, k)) == packets_channels(
            packets.take(k),
        ),
    decreases packets.len(),
{
    let all = packets_channels(packets);
    if k == packets.len() {
        assert(packets.take(k) =~= packets);
        assert(all.take(all.len() as int) =~= all);
    } else {
        let before = packets.drop_last();
        lemma_parts_prefix(before, k);
        assert(before.take(k) =~= packets.take(k));
        assert(all.take(parts_before(packets, k)) =~= packets_channels(before).take(
            parts_before(packets, k),
        ));
    }
}

/// The parts of packet `k` stand among the parts of all packets behind
/// those of the packets before it.
pub proof fn lemma_parts_of_packet(packets: Seq<PacketLayout>, k: int, p: int)
    requires
        0 <= k < packets.len(),
        0 <= p < packets[k].channels().len(),
    ensures
        parts_before(packets, k + 1) == parts_before(packets, k) + packets[k].channels().len(),
        parts_before(packets, k + 1) <= packets_channels(packets).len(),
        packets_channels(packets)[parts_before(packets, k) + p] == packets[k].channels()[p],
{
    let all = packets_channels(packets);
    lemma_parts_prefix(packets, k + 1);
    assert(packets.take(k + 1) =~= packets.take(k).push(packets[k]));
    lemma_push_packet(packets.take(k), packets[k], 0);
    let upto = packets_channels(packets.take(k + 1));
    assert(all.take(parts_before(packets, k + 1))[parts_before(packets, k) + p] == upto[
        parts_before(packets, k) + p]);
}

/// Later packets have no fewer parts before them.
pub proof fn lemma_parts_grow(packets: Seq<PacketLayout>, i: int, k: int)
    requires
        0 <= i <= k <= packets.len(),
    ensures
        parts_before(packets, i) <= parts_before(packets, k),
    decreases k - i,
{
    if i < k {
        lemma_parts_grow(packets, i, k - 1);
        assert(packets.take(k) =~= packets.take(k - 1).push(packets[k - 1]));
        lemma_push_packet(packets.take(k - 1), packets[k - 1], 0);
    }
}

} // verus!
