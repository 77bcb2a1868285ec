//! The packets that a build sends, as a function of what is queued.

use crate::header::{next_id, PacketHeader, PacketId, PacketType, Tick};
use crate::layout::{
    all_wf, channel_prefix_size, messages_size, Block, PacketLayout, MAX_BLOCK_MESSAGES,
};
use crate::message::{ChannelId, FragmentView, SingleView};
use crate::sort::{ascending, sort_by_len};
use crate::MTU_PAYLOAD_BYTES;
use vstd::prelude::*;

verus! {

/// Whether a packet has room for the channel id and message count of one
/// more block.
pub open spec fn fits_channel(layout: PacketLayout, channel: ChannelId) -> bool {
    layout.size() + channel_prefix_size(channel) <= MTU_PAYLOAD_BYTES
}

/// Where the run of messages ends that starts at `at` and goes into one
/// block: messages are taken in their order while each fits into the bytes
/// that are left and the block holds fewer than `limit`.
pub open spec fn fit_end(ms: Seq<SingleView>, at: int, room: int, limit: int) -> int
    decreases ms.len() - at,
{
    if 0 <= at < ms.len() && limit > 0 && ms[at].encoded_len() <= room {
        fit_end(ms, at + 1, room - ms[at].encoded_len(), limit - 1)
    } else {
        at
    }
}

/// A packet after messages of one channel were packed into it.
pub struct Filled {
    /// What the packet holds now.
    pub layout: PacketLayout,
    /// Index of the first message that was not taken.
    pub end: int,
    /// Whether the packet stays open: every message was taken.
    pub open: bool,
}

/// Packs the messages of `channel` from index `at` on into a packet. If the
/// packet has no room for the channel's prefix it stays as it is and is
/// closed. Otherwise it takes the longest run of messages that fits, as one
/// block, and stays open if that run reaches the end of the queue.
pub open spec fn fill(
    layout: PacketLayout,
    channel: ChannelId,
    ms: Seq<SingleView>,
    at: int,
) -> Filled {
    if !fits_channel(layout, channel) {
        Filled { layout, end: at, open: false }
    } else {
        let room = MTU_PAYLOAD_BYTES - layout.size() - channel_prefix_size(channel);
        let end = fit_end(ms, at, room, MAX_BLOCK_MESSAGES as int);
        Filled {
            layout: if end > at {
                layout.push_block(Block { channel, messages: ms.subrange(at, end) })
            } else {
                layout
            },
            end,
            open: end == ms.len(),
        }
    }
}

/// The packets of a build in progress.
pub struct PackState {
    /// The finished packets, in the order in which they are sent.
    pub closed: Seq<PacketLayout>,
    /// The packet that still takes messages.
    pub open: Option<PacketLayout>,
    /// The id of the next packet that is opened.
    pub next_id: PacketId,
}

impl PackState {
    /// The state before anything is packed.
    pub open spec fn start(next_id: PacketId) -> PackState {
        PackState { closed: Seq::empty(), open: None, next_id }
    }

    /// Every packet of the state, the open one last.
    pub open spec fn all(self) -> Seq<PacketLayout> {
        match self.open {
            Some(layout) => self.closed.push(layout),
            None => self.closed,
        }
    }

    /// The state after the open packet, if there is one, was finished.
    pub open spec fn close(self) -> PackState {
        PackState { closed: self.all(), open: None, ..self }
    }

    /// The state with `layout` as its newest packet, in the place of the
    /// open one: still open, or finished.
    pub open spec fn settle(self, layout: PacketLayout, open: bool) -> PackState {
        if open {
            PackState { open: Some(layout), ..self }
        } else {
            PackState { closed: self.closed.push(layout), open: None, ..self }
        }
    }

    /// The state after the header of a new packet was issued.
    pub open spec fn issue(self) -> PackState {
        PackState { next_id: next_id(self.next_id), ..self }
    }
}

/// The header of the packet that is opened next.
pub open spec fn fresh_header(
    state: PackState,
    packet_type: PacketType,
    tick: Tick,
) -> PacketHeader {
    PacketHeader { packet_type, packet_id: state.next_id, tick }
}

/// Continues the open packet, if there is one, with the messages of
/// `channel`. Gives the new state and the index of the first message that
/// is left.
pub open spec fn drain(state: PackState, channel: ChannelId, ms: Seq<SingleView>) -> (
    PackState,
    int,
) {
    match state.open {
        Some(layout) => {
            let filled = fill(layout, channel, ms, 0);
            (state.settle(filled.layout, filled.open), filled.end)
        },
        None => (state, 0),
    }
}

/// Sends one fragment: the open packet is finished, the fragment gets a
/// packet of its own, and that packet is finished at once unless the
/// fragment is the last of its message; then the packet is filled with the
/// messages that are left from index `at` on.
pub open spec fn emit_fragment(
    state: PackState,
    tick: Tick,
    channel: ChannelId,
    fragment: FragmentView,
    ms: Seq<SingleView>,
    at: int,
) -> (PackState, int) {
    let closed = state.close();
    let layout = PacketLayout::fragmented(
        fresh_header(closed, PacketType::DataFragment, tick),
        channel,
        fragment,
    );
    let issued = closed.issue();
    if fragment.is_last_fragment() {
        let filled = fill(layout, channel, ms, at);
        (issued.settle(filled.layout, filled.open), filled.end)
    } else {
        (issued.settle(layout, false), at)
    }
}

/// Sends the fragments from index `k` on, in their order.
pub open spec fn emit_fragments(
    state: PackState,
    tick: Tick,
    channel: ChannelId,
    fragments: Seq<FragmentView>,
    k: int,
    ms: Seq<SingleView>,
    at: int,
) -> (PackState, int)
    decreases fragments.len() - k,
{
    if 0 <= k < fragments.len() {
        let (next, end) = emit_fragment(state, tick, channel, fragments[k], ms, at);
        emit_fragments(next, tick, channel, fragments, k + 1, ms, end)
    } else {
        (state, at)
    }
}

/// A new packet of channel blocks always has room for one message that can
/// be sent whole, so filling it makes progress.
pub proof fn lemma_fresh_packet_takes_one(
    header: PacketHeader,
    channel: ChannelId,
    ms: Seq<SingleView>,
    at: int,
)
    requires
        all_wf(ms),
        0 <= at < ms.len(),
    ensures
        fits_channel(PacketLayout::single(header), channel),
        at < fill(PacketLayout::single(header), channel, ms, at).end <= ms.len(),
{
    let layout = PacketLayout::single(header);
    let room = MTU_PAYLOAD_BYTES - layout.size() - channel_prefix_size(channel);
    lemma_fit_end_bounds(
        ms,
        at + 1,
        room - ms[at].encoded_len(),
        MAX_BLOCK_MESSAGES as int - 1,
    );
}

/// The run that `fit_end` gives starts at `at` and stays inside the queue.
pub proof fn lemma_fit_end_bounds(ms: Seq<SingleView>, at: int, room: int, limit: int)
    requires
        0 <= at <= ms.len(),
        0 <= limit,
    ensures
        at <= fit_end(ms, at, room, limit) <= ms.len(),
        fit_end(ms, at, room, limit) - at <= limit,
        messages_size(ms.subrange(at, fit_end(ms, at, room, limit))) <= room || fit_end(
            ms,
            at,
            room,
            limit,
        ) == at,
    decreases ms.len() - at,
{
    if at < ms.len() && limit > 0 && ms[at].encoded_len() <= room {
        let rest = room - ms[at].encoded_len();
        lemma_fit_end_bounds(ms, at + 1, rest, limit - 1);
        let end = fit_end(ms, at, room, limit);
        lemma_messages_size_split(ms, at, end);
    }
}

/// **The run is the longest that fits.** One message more would not fit
/// into the bytes that are left, unless the run ends with the queue or
/// holds as many messages as a block may.
pub proof fn lemma_fit_end_greatest(ms: Seq<SingleView>, at: int, room: int, limit: int)
    requires
        0 <= at <= ms.len(),
        0 <= limit,
    ensures
        ({
            let end = fit_end(ms, at, room, limit);
            end < ms.len() && end - at < limit ==> messages_size(ms.subrange(at, end))
                + ms[end].encoded_len() > room
        }),
    decreases ms.len() - at,
{
    let end = fit_end(ms, at, room, limit);
    if at < ms.len() && limit > 0 && ms[at].encoded_len() <= room {
        lemma_fit_end_bounds(ms, at + 1, room - ms[at].encoded_len(), limit - 1);
        lemma_fit_end_greatest(ms, at + 1, room - ms[at].encoded_len(), limit - 1);
        lemma_messages_size_split(ms, at, end);
    }
}

/// **No message that is left would fit.** Where the messages stand in
/// order of encoded length, none of those behind the run fits into the
/// bytes that are left after it, unless the run holds as many messages as
/// a block may: to stop at the first that does not fit loses nothing.
pub proof fn lemma_no_later_message_fits(
    ms: Seq<SingleView>,
    at: int,
    room: int,
    limit: int,
    later: int,
)
    requires
        ascending(ms),
        0 <= at <= ms.len(),
        0 <= limit,
        fit_end(ms, at, room, limit) <= later < ms.len(),
        fit_end(ms, at, room, limit) - at < limit,
    ensures
        messages_size(ms.subrange(at, fit_end(ms, at, room, limit))) + ms[later].encoded_len()
            > room,
{
    lemma_fit_end_bounds(ms, at, room, limit);
    lemma_fit_end_greatest(ms, at, room, limit);
}

/// The size of a run is the size of its first message and of the rest.
pub proof fn lemma_messages_size_split(ms: Seq<SingleView>, at: int, end: int)
    requires
        0 <= at < end <= ms.len(),
    ensures
        messages_size(ms.subrange(at, end)) == ms[at].encoded_len() + messages_size(
            ms.subrange(at + 1, end),
        ),
    decreases end - at,
{
    let run = ms.subrange(at, end);
    if end == at + 1 {
        assert(run.drop_last() =~= Seq::<SingleView>::empty());
        assert(ms.subrange(at + 1, end) =~= Seq::<SingleView>::empty());
    } else {
        lemma_messages_size_split(ms, at, end - 1);
        assert(run.drop_last() =~= ms.subrange(at, end - 1));
        assert(ms.subrange(at + 1, end).drop_last() =~= ms.subrange(at + 1, end - 1));
    }
}

/// Packs the messages from index `at` on into new packets of channel
/// blocks, each filled before the next is opened. The last of them stays
/// open.
pub open spec fn pack_rest(
    state: PackState,
    tick: Tick,
    channel: ChannelId,
    ms: Seq<SingleView>,
    at: int,
) -> PackState
    decreases ms.len() - at,
    when all_wf(ms) && 0 <= at
    via pack_rest_decreases
{
    if at < ms.len() {
        let closed = state.close();
        let layout = PacketLayout::single(fresh_header(closed, PacketType::Data, tick));
        let filled = fill(layout, channel, ms, at);
        pack_rest(
            closed.issue().settle(filled.layout, filled.open),
            tick,
            channel,
            ms,
            filled.end,
        )
    } else {
        state
    }
}

#[via_fn]
proof fn pack_rest_decreases(
    state: PackState,
    tick: Tick,
    channel: ChannelId,
    ms: Seq<SingleView>,
    at: int,
) {
    if at < ms.len() {
        let closed = state.close();
        lemma_fresh_packet_takes_one(
            fresh_header(closed, PacketType::Data, tick),
            channel,
            ms,
            at,
        );
    }
}

/// The pending messages of one channel.
pub struct ChannelQueues {
    pub channel: ChannelId,
    /// The messages that are sent whole, in the order in which they were
    /// queued.
    pub singles: Seq<SingleView>,
    /// The fragments, in the order in which they were queued.
    pub fragments: Seq<FragmentView>,
}

impl ChannelQueues {
    /// Every message and every fragment of the channel is well formed.
    pub open spec fn wf(self) -> bool {
        &&& all_wf(self.singles)
        &&& forall|i: int| 0 <= i < self.fragments.len() ==> (#[trigger] self.fragments[i]).wf()
    }
}

/// Packs one channel: its messages are put in order of encoded length; the
/// open packet takes what fits of them; each fragment gets a packet of its
/// own, which the messages that are left may share if the fragment is the
/// last of its message; what is still left goes into new packets.
pub open spec fn pack_channel(state: PackState, tick: Tick, queues: ChannelQueues) -> PackState {
    let ms = sort_by_len(queues.singles);
    let (drained, at) = drain(state, queues.channel, ms);
    let (emitted, end) = emit_fragments(
        drained,
        tick,
        queues.channel,
        queues.fragments,
        0,
        ms,
        at,
    );
    pack_rest(emitted, tick, queues.channel, ms, end)
}

/// Packs the first `n` of the channels, in their order.
pub open spec fn pack_channels(
    state: PackState,
    tick: Tick,
    channels: Seq<ChannelQueues>,
    n: int,
) -> PackState
    decreases n,
{
    if 0 < n <= channels.len() {
        pack_channel(pack_channels(state, tick, channels, n - 1), tick, channels[n - 1])
    } else {
        state
    }
}

/// The packets that a build sends for `channels`, in the order in which
/// they are sent, when it starts in the state `start`: the channels are
/// packed in their order, and the packet that is open at the end is
/// finished.
pub open spec fn pack(start: PackState, tick: Tick, channels: Seq<ChannelQueues>) -> Seq<
    PacketLayout,
> {
    pack_channels(start, tick, channels, channels.len() as int).all()
}

} // verus!
