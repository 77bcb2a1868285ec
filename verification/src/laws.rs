//! What holds of every build: nothing is lost, every packet may be sent,
//! messages go shortest first, channels in ascending order.

use crate::channels::{channels_below, channels_of, data_wf, ChannelData};
use crate::content::{
    adds, lemma_adds_block, lemma_adds_nothing, lemma_adds_packet, lemma_adds_twice,
    lemma_parts_grow, lemma_parts_of_packet, packets_channels, packets_fragments,
    packets_singles, parts_before,
};
use crate::grammar::{lemma_parse_packet, parse_packet};
use crate::header::{next_id, PacketId, PacketType, Tick};
use crate::layout::{all_wf, channel_prefix_size, Block, PacketLayout, MAX_BLOCK_MESSAGES};
use crate::message::{fragment_views, queue_views, ChannelId, FragmentView, SingleView};
use crate::model::{
    drain, emit_fragment, emit_fragments, fill, fits_channel, fresh_header,
    lemma_fit_end_bounds, lemma_fresh_packet_takes_one, pack, pack_channel, pack_channels,
    pack_rest, ChannelQueues, PackState,
};
use crate::sort::{
    ascending, lemma_sort_all_wf, lemma_sort_ascending, lemma_sort_permutes, sort_by_len,
};
use crate::MTU_PAYLOAD_BYTES;
use vstd::prelude::*;

verus! {

/// Filling the last packet adds the messages that it takes, and nothing
/// else.
pub proof fn lemma_fill_adds(
    closed: Seq<PacketLayout>,
    layout: PacketLayout,
    channel: ChannelId,
    ms: Seq<SingleView>,
    at: int,
)
    requires
        0 <= at <= ms.len(),
    ensures
        ({
            let filled = fill(layout, channel, ms, at);
            &&& at <= filled.end <= ms.len()
            &&& filled.open ==> filled.end == ms.len()
            &&& adds(
                closed.push(layout),
                closed.push(filled.layout),
                channel,
                ms.subrange(at, filled.end),
                Seq::empty(),
            )
        }),
{
    let filled = fill(layout, channel, ms, at);
    let room = MTU_PAYLOAD_BYTES - layout.size() - channel_prefix_size(channel);
    lemma_fit_end_bounds(ms, at, room, MAX_BLOCK_MESSAGES as int);
    if filled.end > at {
        lemma_adds_block(closed, layout, Block { channel, messages: ms.subrange(at, filled.end) });
    } else {
        lemma_adds_nothing(closed.push(layout), channel);
    }
}

/// Continuing the open packet adds the messages up to the index that
/// `drain` gives, and leaves no packet open unless every message was taken.
pub proof fn lemma_drain_adds(state: PackState, channel: ChannelId, ms: Seq<SingleView>)
    ensures
        ({
            let (next, at) = drain(state, channel, ms);
            &&& 0 <= at <= ms.len()
            &&& at < ms.len() ==> next.open is None
            &&& adds(state.all(), next.all(), channel, ms.subrange(0, at), Seq::empty())
        }),
{
    match state.open {
        Some(layout) => {
            lemma_fill_adds(state.closed, layout, channel, ms, 0);
        },
        None => {
            lemma_adds_nothing(state.all(), channel);
        },
    }
}

/// Sending a fragment adds the fragment and the messages that share its
/// packet, and leaves no packet open unless every message was taken.
pub proof fn lemma_emit_fragment_adds(
    state: PackState,
    tick: Tick,
    channel: ChannelId,
    fragment: FragmentView,
    ms: Seq<SingleView>,
    at: int,
)
    requires
        0 <= at <= ms.len(),
    ensures
        ({
            let (next, end) = emit_fragment(state, tick, channel, fragment, ms, at);
            &&& at <= end <= ms.len()
            &&& end < ms.len() ==> next.open is None
            &&& adds(state.all(), next.all(), channel, ms.subrange(at, end), seq![fragment])
        }),
{
    let closed = state.close();
    let layout = PacketLayout::fragmented(
        fresh_header(closed, PacketType::DataFragment, tick),
        channel,
        fragment,
    );
    let (next, end) = emit_fragment(state, tick, channel, fragment, ms, at);
    lemma_adds_packet(state.all(), layout, channel);
    if fragment.is_last_fragment() {
        lemma_fill_adds(state.all(), layout, channel, ms, at);
        lemma_adds_twice(
            state.all(),
            state.all().push(layout),
            next.all(),
            channel,
            Seq::empty(),
            seq![fragment],
            ms.subrange(at, end),
            Seq::empty(),
        );
    }
}

/// Sending the fragments from index `k` on adds them, in their order, and
/// the messages that share their packets.
pub proof fn lemma_emit_fragments_adds(
    state: PackState,
    tick: Tick,
    channel: ChannelId,
    fragments: Seq<FragmentView>,
    k: int,
    ms: Seq<SingleView>,
    at: int,
)
    requires
        0 <= k <= fragments.len(),
        0 <= at <= ms.len(),
    ensures
        ({
            let (next, end) = emit_fragments(state, tick, channel, fragments, k, ms, at);
            &&& at <= end <= ms.len()
            &&& adds(
                state.all(),
                next.all(),
                channel,
                ms.subrange(at, end),
                fragments.subrange(k, fragments.len() as int),
            )
        }),
    decreases fragments.len() - k,
{
    if k < fragments.len() {
        let (middle, mid) = emit_fragment(state, tick, channel, fragments[k], ms, at);
        let (next, end) = emit_fragments(middle, tick, channel, fragments, k + 1, ms, mid);
        lemma_emit_fragment_adds(state, tick, channel, fragments[k], ms, at);
        lemma_emit_fragments_adds(middle, tick, channel, fragments, k + 1, ms, mid);
        lemma_adds_twice(
            state.all(),
            middle.all(),
            next.all(),
            channel,
            ms.subrange(at, mid),
            seq![fragments[k]],
            ms.subrange(mid, end),
            fragments.subrange(k + 1, fragments.len() as int),
        );
        assert(ms.subrange(at, mid) + ms.subrange(mid, end) =~= ms.subrange(at, end));
        assert(seq![fragments[k]] + fragments.subrange(k + 1, fragments.len() as int)
            =~= fragments.subrange(k, fragments.len() as int));
    } else {
        lemma_adds_nothing(state.all(), channel);
    }
}

/// Packing what is left adds every message from index `at` on.
pub proof fn lemma_pack_rest_adds(
    state: PackState,
    tick: Tick,
    channel: ChannelId,
    ms: Seq<SingleView>,
    at: int,
)
    requires
        all_wf(ms),
        0 <= at <= ms.len(),
    ensures
        adds(
            state.all(),
            pack_rest(state, tick, channel, ms, at).all(),
            channel,
            ms.subrange(at, ms.len() as int),
            Seq::empty(),
        ),
    decreases ms.len() - at,
{
    if at < ms.len() {
        let closed = state.close();
        let layout = PacketLayout::single(fresh_header(closed, PacketType::Data, tick));
        let filled = fill(layout, channel, ms, at);
        let middle = closed.issue().settle(filled.layout, filled.open);
        let last = pack_rest(state, tick, channel, ms, at);
        lemma_fresh_packet_takes_one(layout.header, channel, ms, at);
        lemma_adds_packet(state.all(), layout, channel);
        lemma_fill_adds(state.all(), layout, channel, ms, at);
        lemma_pack_rest_adds(middle, tick, channel, ms, filled.end);
        lemma_adds_twice(
            state.all(),
            state.all().push(layout),
            middle.all(),
            channel,
            Seq::empty(),
            Seq::empty(),
            ms.subrange(at, filled.end),
            Seq::empty(),
        );
        lemma_adds_twice(
            state.all(),
            middle.all(),
            last.all(),
            channel,
            Seq::<SingleView>::empty() + ms.subrange(at, filled.end),
            Seq::<FragmentView>::empty() + Seq::<FragmentView>::empty(),
            ms.subrange(filled.end, ms.len() as int),
            Seq::empty(),
        );
        assert(Seq::<SingleView>::empty() + ms.subrange(at, filled.end) + ms.subrange(
            filled.end,
            ms.len() as int,
        ) =~= ms.subrange(at, ms.len() as int));
    } else {
        lemma_adds_nothing(state.all(), channel);
    }
}

/// Packing a channel adds its messages, in order of encoded length, and its
/// fragments, in their order, and nothing else.
pub proof fn lemma_pack_channel_adds(state: PackState, tick: Tick, queues: ChannelQueues)
    requires
        queues.wf(),
    ensures
        adds(
            state.all(),
            pack_channel(state, tick, queues).all(),
            queues.channel,
            sort_by_len(queues.singles),
            queues.fragments,
        ),
{
    let channel = queues.channel;
    let ms = sort_by_len(queues.singles);
    lemma_sort_all_wf(queues.singles);
    let (drained, at) = drain(state, channel, ms);
    let (emitted, end) = emit_fragments(drained, tick, channel, queues.fragments, 0, ms, at);
    let last = pack_rest(emitted, tick, channel, ms, end);
    lemma_drain_adds(state, channel, ms);
    lemma_emit_fragments_adds(drained, tick, channel, queues.fragments, 0, ms, at);
    lemma_pack_rest_adds(emitted, tick, channel, ms, end);
    lemma_adds_twice(
        state.all(),
        drained.all(),
        emitted.all(),
        channel,
        ms.subrange(0, at),
        Seq::empty(),
        ms.subrange(at, end),
        queues.fragments.subrange(0, queues.fragments.len() as int),
    );
    lemma_adds_twice(
        state.all(),
        emitted.all(),
        last.all(),
        channel,
        ms.subrange(0, at) + ms.subrange(at, end),
        Seq::<FragmentView>::empty() + queues.fragments.subrange(
            0,
            queues.fragments.len() as int,
        ),
        ms.subrange(end, ms.len() as int),
        Seq::empty(),
    );
    assert(ms.subrange(0, at) + ms.subrange(at, end) + ms.subrange(end, ms.len() as int) =~= ms);
    assert(Seq::<FragmentView>::empty() + queues.fragments.subrange(
        0,
        queues.fragments.len() as int,
    ) + Seq::<FragmentView>::empty() =~= queues.fragments);
}

/// The messages that the first `n` channels queued for `channel`, each
/// queue in order of encoded length.
pub open spec fn queued_singles(channels: Seq<ChannelQueues>, n: int, channel: ChannelId) -> Seq<
    SingleView,
>
    decreases n,
{
    if 0 < n <= channels.len() {
        queued_singles(channels, n - 1, channel) + if channels[n - 1].channel == channel {
            sort_by_len(channels[n - 1].singles)
        } else {
            Seq::empty()
        }
    } else {
        Seq::empty()
    }
}

/// The fragments that the first `n` channels queued for `channel`.
pub open spec fn queued_fragments(channels: Seq<ChannelQueues>, n: int, channel: ChannelId) -> Seq<
    FragmentView,
>
    decreases n,
{
    if 0 < n <= channels.len() {
        queued_fragments(channels, n - 1, channel) + if channels[n - 1].channel == channel {
            channels[n - 1].fragments
        } else {
            Seq::empty()
        }
    } else {
        Seq::empty()
    }
}

/// Every queue is well formed.
pub open spec fn all_queues_wf(channels: Seq<ChannelQueues>) -> bool {
    forall|i: int| 0 <= i < channels.len() ==> (#[trigger] channels[i]).wf()
}

/// Each channel has a smaller id than those behind it.
pub open spec fn ids_ascending(channels: Seq<ChannelQueues>) -> bool {
    forall|i: int, j: int|
        0 <= i < j < channels.len() ==> (#[trigger] channels[i]).channel < (
        #[trigger] channels[j]).channel
}

/// No channel in the sequence is greater than one behind it.
pub open spec fn non_decreasing(trace: Seq<ChannelId>) -> bool {
    forall|i: int, j: int| 0 <= i <= j < trace.len() ==> trace[i] <= trace[j]
}

/// After the first `n` channels were packed, the packets hold for each
/// channel what they held before and, behind it, what was queued for it.
pub proof fn lemma_pack_channels_content(
    state: PackState,
    tick: Tick,
    channels: Seq<ChannelQueues>,
    n: int,
    channel: ChannelId,
)
    requires
        0 <= n <= channels.len(),
        all_queues_wf(channels),
    ensures
        packets_singles(pack_channels(state, tick, channels, n).all(), channel)
            == packets_singles(state.all(), channel) + queued_singles(channels, n, channel),
        packets_fragments(pack_channels(state, tick, channels, n).all(), channel)
            == packets_fragments(state.all(), channel) + queued_fragments(channels, n, channel),
    decreases n,
{
    if n > 0 {
        let before = pack_channels(state, tick, channels, n - 1);
        lemma_pack_channels_content(state, tick, channels, n - 1, channel);
        lemma_pack_channel_adds(before, tick, channels[n - 1]);
    }
}

/// After the first `n` channels were packed in ascending order of their
/// ids, the parts that were added stand in ascending order of their
/// channels, behind the parts that were there before.
pub proof fn lemma_pack_channels_order(
    state: PackState,
    tick: Tick,
    channels: Seq<ChannelQueues>,
    n: int,
)
    requires
        0 <= n <= channels.len(),
        all_queues_wf(channels),
        ids_ascending(channels),
    ensures
        ({
            let before = packets_channels(state.all());
            let after = packets_channels(pack_channels(state, tick, channels, n).all());
            &&& before.len() <= after.len()
            &&& after.take(before.len() as int) == before
            &&& forall|i: int, j: int| before.len() <= i <= j < after.len() ==> after[i] <= after[j]
            &&& forall|i: int|
                before.len() <= i < after.len() ==> n > 0 && after[i] <= channels[n - 1].channel
        }),
    decreases n,
{
    let before = packets_channels(state.all());
    if n > 0 {
        let middle = packets_channels(pack_channels(state, tick, channels, n - 1).all());
        let after = packets_channels(pack_channels(state, tick, channels, n).all());
        lemma_pack_channels_order(state, tick, channels, n - 1);
        lemma_pack_channel_adds(
            pack_channels(state, tick, channels, n - 1),
            tick,
            channels[n - 1],
        );
        assert forall|i: int| 0 <= i < middle.len() implies after[i] == middle[i] by {}
        assert(after.take(before.len() as int) =~= before);
    }
}

/// The messages that are queued for `channel`.
pub open spec fn queued_singles_of(data: Map<ChannelId, ChannelData>, channel: ChannelId) -> Seq<
    SingleView,
> {
    if data.contains_key(channel) {
        queue_views(data[channel].0@)
    } else {
        Seq::empty()
    }
}

/// The fragments that are queued for `channel`.
pub open spec fn queued_fragments_of(data: Map<ChannelId, ChannelData>, channel: ChannelId) -> Seq<
    FragmentView,
> {
    if data.contains_key(channel) {
        fragment_views(data[channel].1@)
    } else {
        Seq::empty()
    }
}

/// The channels below `bound` are listed with their queues, in ascending
/// order of their ids.
pub proof fn lemma_channels_below_listed(data: Map<ChannelId, ChannelData>, bound: int)
    requires
        0 <= bound <= 0x1_0000,
        data_wf(data),
    ensures
        all_queues_wf(channels_below(data, bound)),
        ids_ascending(channels_below(data, bound)),
        forall|i: int|
            0 <= i < channels_below(data, bound).len() ==> (#[trigger] channels_below(
                data,
                bound,
            )[i]).channel < bound,
    decreases bound,
{
    if bound > 0 {
        lemma_channels_below_listed(data, bound - 1);
    }
}

/// What the channels below `bound` queued for `channel` is what the map
/// holds for it.
pub proof fn lemma_channels_below_queued(
    data: Map<ChannelId, ChannelData>,
    bound: int,
    channel: ChannelId,
)
    requires
        0 <= bound <= 0x1_0000,
    ensures
        ({
            let channels = channels_below(data, bound);
            &&& queued_singles(channels, channels.len() as int, channel) == if channel < bound {
                sort_by_len(queued_singles_of(data, channel))
            } else {
                Seq::empty()
            }
            &&& queued_fragments(channels, channels.len() as int, channel) == if channel
                < bound {
                queued_fragments_of(data, channel)
            } else {
                Seq::empty()
            }
        }),
    decreases bound,
{
    if bound > 0 {
        lemma_channels_below_queued(data, bound - 1, channel);
        let before = channels_below(data, bound - 1);
        let now = channels_below(data, bound);
        let newest = (bound - 1) as ChannelId;
        if data.contains_key(newest) {
            assert(now.take(before.len() as int) =~= before);
            lemma_queued_take(now, before.len() as int, channel);
        }
    }
}

/// What the first `n` channels queued does not depend on the channels
/// behind them.
pub proof fn lemma_queued_take(channels: Seq<ChannelQueues>, n: int, channel: ChannelId)
    requires
        0 <= n <= channels.len(),
    ensures
        queued_singles(channels.take(n), n, channel) == queued_singles(channels, n, channel),
        queued_fragments(channels.take(n), n, channel) == queued_fragments(channels, n, channel),
    decreases n,
{
    if n > 0 {
        lemma_queued_take(channels, n - 1, channel);
        lemma_queued_take(channels.take(n), n - 1, channel);
        assert(channels.take(n).take(n - 1) =~= channels.take(n - 1));
    }
}

/// No packet is open when the messages that are left after the fragments
/// are packed: the open packet and the packets of last fragments stay open
/// only if they took every message.
pub proof fn lemma_rest_starts_closed(state: PackState, tick: Tick, queues: ChannelQueues)
    ensures
        ({
            let ms = sort_by_len(queues.singles);
            let (drained, at) = drain(state, queues.channel, ms);
            let (emitted, end) = emit_fragments(
                drained,
                tick,
                queues.channel,
                queues.fragments,
                0,
                ms,
                at,
            );
            end < ms.len() ==> emitted.open is None
        }),
{
    let ms = sort_by_len(queues.singles);
    let (drained, at) = drain(state, queues.channel, ms);
    lemma_drain_adds(state, queues.channel, ms);
    lemma_fragments_leave_closed(drained, tick, queues.channel, queues.fragments, 0, ms, at);
}

/// If no packet is open unless every message was taken, that is so after
/// the fragments from index `k` on were sent too.
pub proof fn lemma_fragments_leave_closed(
    state: PackState,
    tick: Tick,
    channel: ChannelId,
    fragments: Seq<FragmentView>,
    k: int,
    ms: Seq<SingleView>,
    at: int,
)
    requires
        0 <= k <= fragments.len(),
        0 <= at <= ms.len(),
        at < ms.len() ==> state.open is None,
    ensures
        ({
            let (next, end) = emit_fragments(state, tick, channel, fragments, k, ms, at);
            end < ms.len() ==> next.open is None
        }),
    decreases fragments.len() - k,
{
    if k < fragments.len() {
        let (middle, mid) = emit_fragment(state, tick, channel, fragments[k], ms, at);
        lemma_emit_fragment_adds(state, tick, channel, fragments[k], ms, at);
        lemma_fragments_leave_closed(middle, tick, channel, fragments, k + 1, ms, mid);
    }
}

/// Every packet of the state may be sent, and the open one may take
/// channel blocks.
pub open spec fn state_valid(state: PackState) -> bool {
    &&& forall|i: int| 0 <= i < state.closed.len() ==> (#[trigger] state.closed[i]).valid()
    &&& state.open matches Some(layout) ==> layout.valid() && layout.takes_blocks()
}

/// A packet that may be sent may be sent after it was filled.
pub proof fn lemma_fill_valid(
    layout: PacketLayout,
    channel: ChannelId,
    ms: Seq<SingleView>,
    at: int,
)
    requires
        layout.valid(),
        layout.takes_blocks(),
        all_wf(ms),
        0 <= at <= ms.len(),
    ensures
        fill(layout, channel, ms, at).layout.valid(),
        fill(layout, channel, ms, at).layout.takes_blocks(),
{
    let filled = fill(layout, channel, ms, at);
    let room = MTU_PAYLOAD_BYTES - layout.size() - channel_prefix_size(channel);
    lemma_fit_end_bounds(ms, at, room, MAX_BLOCK_MESSAGES as int);
    if fits_channel(layout, channel) && filled.end > at {
        let block = Block { channel, messages: ms.subrange(at, filled.end) };
        layout.lemma_push_block(block);
    }
}

/// The packets may be sent after a channel was packed, if they could
/// before.
pub proof fn lemma_pack_channel_valid(state: PackState, tick: Tick, queues: ChannelQueues)
    requires
        state_valid(state),
        queues.wf(),
    ensures
        state_valid(pack_channel(state, tick, queues)),
{
    let channel = queues.channel;
    let ms = sort_by_len(queues.singles);
    lemma_sort_all_wf(queues.singles);
    let (drained, at) = drain(state, channel, ms);
    lemma_drain_adds(state, channel, ms);
    match state.open {
        Some(layout) => {
            lemma_fill_valid(layout, channel, ms, 0);
        },
        None => {},
    }
    lemma_emit_fragments_valid(drained, tick, channel, queues.fragments, 0, ms, at);
    let (emitted, end) = emit_fragments(drained, tick, channel, queues.fragments, 0, ms, at);
    lemma_emit_fragments_adds(drained, tick, channel, queues.fragments, 0, ms, at);
    lemma_pack_rest_valid(emitted, tick, channel, ms, end);
}

/// The packets may be sent after the fragments from index `k` on were
/// sent, if they could before.
pub proof fn lemma_emit_fragments_valid(
    state: PackState,
    tick: Tick,
    channel: ChannelId,
    fragments: Seq<FragmentView>,
    k: int,
    ms: Seq<SingleView>,
    at: int,
)
    requires
        state_valid(state),
        forall|i: int| 0 <= i < fragments.len() ==> (#[trigger] fragments[i]).wf(),
        all_wf(ms),
        0 <= k <= fragments.len(),
        0 <= at <= ms.len(),
    ensures
        state_valid(emit_fragments(state, tick, channel, fragments, k, ms, at).0),
    decreases fragments.len() - k,
{
    if k < fragments.len() {
        let fragment = fragments[k];
        let closed = state.close();
        let header = fresh_header(closed, PacketType::DataFragment, tick);
        let layout = PacketLayout::fragmented(header, channel, fragment);
        lemma_emit_fragment_adds(state, tick, channel, fragment, ms, at);
        let (middle, mid) = emit_fragment(state, tick, channel, fragment, ms, at);
        if fragment.is_last_fragment() {
            lemma_fill_valid(layout, channel, ms, at);
        }
        lemma_emit_fragments_valid(middle, tick, channel, fragments, k + 1, ms, mid);
    }
}

/// The packets may be sent after what was left was packed, if they could
/// before.
pub proof fn lemma_pack_rest_valid(
    state: PackState,
    tick: Tick,
    channel: ChannelId,
    ms: Seq<SingleView>,
    at: int,
)
    requires
        state_valid(state),
        all_wf(ms),
        0 <= at <= ms.len(),
    ensures
        state_valid(pack_rest(state, tick, channel, ms, at)),
    decreases ms.len() - at,
{
    if at < ms.len() {
        let closed = state.close();
        let header = fresh_header(closed, PacketType::Data, tick);
        let layout = PacketLayout::single(header);
        let filled = fill(layout, channel, ms, at);
        lemma_fresh_packet_takes_one(header, channel, ms, at);
        lemma_fill_valid(layout, channel, ms, at);
        lemma_pack_rest_valid(
            closed.issue().settle(filled.layout, filled.open),
            tick,
            channel,
            ms,
            filled.end,
        );
    }
}

/// The packets may be sent after the first `n` channels were packed, if
/// they could before.
pub proof fn lemma_pack_channels_valid(
    state: PackState,
    tick: Tick,
    channels: Seq<ChannelQueues>,
    n: int,
)
    requires
        state_valid(state),
        all_queues_wf(channels),
        0 <= n <= channels.len(),
    ensures
        state_valid(pack_channels(state, tick, channels, n)),
    decreases n,
{
    if n > 0 {
        lemma_pack_channels_valid(state, tick, channels, n - 1);
        lemma_pack_channel_valid(
            pack_channels(state, tick, channels, n - 1),
            tick,
            channels[n - 1],
        );
    }
}

/// **Capacity, fragments alone, and what is sent can be read.** Every
/// packet that a build sends may be sent: its payload is no longer than a
/// packet may be, a fragment that is not the last of its message stands
/// alone in its packet, and reading the payload gives back the packet.
pub proof fn lemma_packets_valid(
    first_id: PacketId,
    tick: Tick,
    data: Map<ChannelId, ChannelData>,
    i: int,
)
    requires
        data_wf(data),
        0 <= i < pack(PackState::start(first_id), tick, channels_of(data)).len(),
    ensures
        ({
            let packet = pack(PackState::start(first_id), tick, channels_of(data))[i];
            &&& packet.valid()
            &&& packet.encoding().len() <= MTU_PAYLOAD_BYTES
            &&& !packet.takes_blocks() ==> packet.blocks.len() == 0
            &&& parse_packet(packet.encoding()) == Some(packet)
        }),
{
    let start = PackState::start(first_id);
    let channels = channels_of(data);
    lemma_channels_below_listed(data, 0x1_0000);
    lemma_pack_channels_valid(start, tick, channels, channels.len() as int);
    let end = pack_channels(start, tick, channels, channels.len() as int);
    let packet = end.all()[i];
    packet.lemma_size();
    lemma_parse_packet(packet);
}

/// The id of the packet that is opened `n` packets after the packet with
/// the id `first`.
pub open spec fn id_after(first: PacketId, n: nat) -> PacketId
    decreases n,
{
    if n == 0 {
        first
    } else {
        next_id(id_after(first, (n - 1) as nat))
    }
}

/// The packets have the tick `tick` and ids that follow one another from
/// `first` on, and the next packet gets the id that follows them.
pub open spec fn numbered(state: PackState, first: PacketId, tick: Tick) -> bool {
    &&& state.next_id == id_after(first, state.all().len())
    &&& forall|i: int|
        0 <= i < state.all().len() ==> (#[trigger] state.all()[i]).header.packet_id == id_after(
            first,
            i as nat,
        ) && state.all()[i].header.tick == tick
}

/// The packets stay numbered while a channel is packed.
pub proof fn lemma_pack_channel_numbered(
    state: PackState,
    first: PacketId,
    tick: Tick,
    queues: ChannelQueues,
)
    requires
        numbered(state, first, tick),
        queues.wf(),
    ensures
        numbered(pack_channel(state, tick, queues), first, tick),
{
    let channel = queues.channel;
    let ms = sort_by_len(queues.singles);
    lemma_sort_all_wf(queues.singles);
    let (drained, at) = drain(state, channel, ms);
    lemma_drain_adds(state, channel, ms);
    match state.open {
        Some(layout) => {
            assert forall|i: int| 0 <= i < drained.all().len() implies (
            #[trigger] drained.all()[i]).header == state.all()[i].header by {}
        },
        None => {},
    }
    lemma_emit_fragments_numbered(drained, first, tick, channel, queues.fragments, 0, ms, at);
    let (emitted, end) = emit_fragments(drained, tick, channel, queues.fragments, 0, ms, at);
    lemma_emit_fragments_adds(drained, tick, channel, queues.fragments, 0, ms, at);
    lemma_pack_rest_numbered(emitted, first, tick, channel, ms, end);
}

/// The packets stay numbered while fragments are sent.
pub proof fn lemma_emit_fragments_numbered(
    state: PackState,
    first: PacketId,
    tick: Tick,
    channel: ChannelId,
    fragments: Seq<FragmentView>,
    k: int,
    ms: Seq<SingleView>,
    at: int,
)
    requires
        numbered(state, first, tick),
        0 <= k <= fragments.len(),
        0 <= at <= ms.len(),
    ensures
        numbered(emit_fragments(state, tick, channel, fragments, k, ms, at).0, first, tick),
    decreases fragments.len() - k,
{
    if k < fragments.len() {
        let fragment = fragments[k];
        let (middle, mid) = emit_fragment(state, tick, channel, fragment, ms, at);
        lemma_emit_fragment_adds(state, tick, channel, fragment, ms, at);
        lemma_emit_fragments_numbered(middle, first, tick, channel, fragments, k + 1, ms, mid);
    }
}

/// The packets stay numbered while what is left is packed.
pub proof fn lemma_pack_rest_numbered(
    state: PackState,
    first: PacketId,
    tick: Tick,
    channel: ChannelId,
    ms: Seq<SingleView>,
    at: int,
)
    requires
        numbered(state, first, tick),
        all_wf(ms),
        0 <= at <= ms.len(),
    ensures
        numbered(pack_rest(state, tick, channel, ms, at), first, tick),
    decreases ms.len() - at,
{
    if at < ms.len() {
        let closed = state.close();
        let layout = PacketLayout::single(fresh_header(closed, PacketType::Data, tick));
        let filled = fill(layout, channel, ms, at);
        lemma_fresh_packet_takes_one(layout.header, channel, ms, at);
        lemma_pack_rest_numbered(
            closed.issue().settle(filled.layout, filled.open),
            first,
            tick,
            channel,
            ms,
            filled.end,
        );
    }
}

/// The packets stay numbered while the first `n` channels are packed.
pub proof fn lemma_pack_channels_numbered(
    state: PackState,
    first: PacketId,
    tick: Tick,
    channels: Seq<ChannelQueues>,
    n: int,
)
    requires
        numbered(state, first, tick),
        all_queues_wf(channels),
        0 <= n <= channels.len(),
    ensures
        numbered(pack_channels(state, tick, channels, n), first, tick),
    decreases n,
{
    if n > 0 {
        lemma_pack_channels_numbered(state, first, tick, channels, n - 1);
        lemma_pack_channel_numbered(
            pack_channels(state, tick, channels, n - 1),
            first,
            tick,
            channels[n - 1],
        );
    }
}

/// **Every packet has an id of its own.** The packets that a build sends
/// carry the tick of the build and ids that follow one another, in the
/// order in which the packets are sent, from the id that was next when the
/// build began.
pub proof fn lemma_packets_numbered(
    first_id: PacketId,
    tick: Tick,
    data: Map<ChannelId, ChannelData>,
    i: int,
)
    requires
        data_wf(data),
        0 <= i < pack(PackState::start(first_id), tick, channels_of(data)).len(),
    ensures
        ({
            let header = pack(PackState::start(first_id), tick, channels_of(data))[i].header;
            header.packet_id == id_after(first_id, i as nat) && header.tick == tick
        }),
{
    let start = PackState::start(first_id);
    let channels = channels_of(data);
    lemma_channels_below_listed(data, 0x1_0000);
    lemma_pack_channels_numbered(start, first_id, tick, channels, channels.len() as int);
}

/// **No loss.** A build sends, for every channel, exactly the messages that
/// were queued for it, each once: the messages that its packets hold for
/// the channel are, as a multiset, the queued messages, and the fragments
/// that they hold for it are the queued fragments in their order.
pub proof fn lemma_no_message_lost(
    first_id: PacketId,
    tick: Tick,
    data: Map<ChannelId, ChannelData>,
    channel: ChannelId,
)
    requires
        data_wf(data),
    ensures
        packets_singles(
            pack(PackState::start(first_id), tick, channels_of(data)),
            channel,
        ).to_multiset() == queued_singles_of(data, channel).to_multiset(),
        packets_fragments(pack(PackState::start(first_id), tick, channels_of(data)), channel)
            == queued_fragments_of(data, channel),
{
    let start = PackState::start(first_id);
    lemma_sort_permutes(queued_singles_of(data, channel));
    let channels = channels_of(data);
    lemma_channels_below_listed(data, 0x1_0000);
    lemma_channels_below_queued(data, 0x1_0000, channel);
    lemma_pack_channels_content(start, tick, channels, channels.len() as int, channel);
}

/// **Order of the messages.** A build sends the messages of every channel
/// in order of encoded length, shortest first, whatever the order in which
/// they were queued: read packet by packet, the messages of the channel
/// are the queued ones sorted.
pub proof fn lemma_messages_sorted(
    first_id: PacketId,
    tick: Tick,
    data: Map<ChannelId, ChannelData>,
    channel: ChannelId,
)
    requires
        data_wf(data),
    ensures
        packets_singles(pack(PackState::start(first_id), tick, channels_of(data)), channel)
            == sort_by_len(queued_singles_of(data, channel)),
        ascending(
            packets_singles(pack(PackState::start(first_id), tick, channels_of(data)), channel),
        ),
{
    let start = PackState::start(first_id);
    let channels = channels_of(data);
    lemma_channels_below_listed(data, 0x1_0000);
    lemma_channels_below_queued(data, 0x1_0000, channel);
    lemma_pack_channels_content(start, tick, channels, channels.len() as int, channel);
    lemma_sort_ascending(queued_singles_of(data, channel));
}

/// **Order of the channels.** A build sends the channels in ascending
/// order of their ids: read packet by packet and part by part, no part
/// belongs to a smaller channel than a part before it.
pub proof fn lemma_channels_ascending(
    first_id: PacketId,
    tick: Tick,
    data: Map<ChannelId, ChannelData>,
)
    requires
        data_wf(data),
    ensures
        non_decreasing(
            packets_channels(pack(PackState::start(first_id), tick, channels_of(data))),
        ),
{
    let start = PackState::start(first_id);
    let channels = channels_of(data);
    lemma_channels_below_listed(data, 0x1_0000);
    lemma_pack_channels_order(start, tick, channels, channels.len() as int);
}

/// Every packet of the state holds a part.
pub open spec fn has_parts(state: PackState) -> bool {
    forall|i: int|
        0 <= i < state.all().len() ==> (#[trigger] state.all()[i]).channels().len() > 0
}

/// Filling a packet takes no part from it.
pub proof fn lemma_fill_keeps_parts(
    layout: PacketLayout,
    channel: ChannelId,
    ms: Seq<SingleView>,
    at: int,
)
    ensures
        fill(layout, channel, ms, at).layout.channels().len() >= layout.channels().len(),
        fill(layout, channel, ms, at).end > at ==> fill(
            layout,
            channel,
            ms,
            at,
        ).layout.channels().len() > 0,
{
    let filled = fill(layout, channel, ms, at);
    if filled.end > at {
        layout.lemma_push_block_content(
            Block { channel, messages: ms.subrange(at, filled.end) },
            channel,
        );
    }
}

/// A new packet that holds a part keeps every packet with a part.
pub proof fn lemma_settle_parts(state: PackState, layout: PacketLayout, open: bool)
    requires
        has_parts(state),
        layout.channels().len() > 0,
    ensures
        has_parts(state.close().issue().settle(layout, open)),
{
    let next = state.close().issue().settle(layout, open);
    assert(next.all() =~= state.all().push(layout));
    assert forall|i: int| 0 <= i < next.all().len() implies (
    #[trigger] next.all()[i]).channels().len() > 0 by {
        if i < state.all().len() {
            assert(next.all()[i] == state.all()[i]);
        }
    }
}

/// Every packet holds a part while fragments are sent.
pub proof fn lemma_emit_fragments_parts(
    state: PackState,
    tick: Tick,
    channel: ChannelId,
    fragments: Seq<FragmentView>,
    k: int,
    ms: Seq<SingleView>,
    at: int,
)
    requires
        has_parts(state),
        0 <= k <= fragments.len(),
        0 <= at <= ms.len(),
    ensures
        has_parts(emit_fragments(state, tick, channel, fragments, k, ms, at).0),
    decreases fragments.len() - k,
{
    if k < fragments.len() {
        let fragment = fragments[k];
        let layout = PacketLayout::fragmented(
            fresh_header(state.close(), PacketType::DataFragment, tick),
            channel,
            fragment,
        );
        let (middle, mid) = emit_fragment(state, tick, channel, fragment, ms, at);
        lemma_emit_fragment_adds(state, tick, channel, fragment, ms, at);
        assert(layout.channels().len() > 0);
        if fragment.is_last_fragment() {
            let filled = fill(layout, channel, ms, at);
            lemma_fill_keeps_parts(layout, channel, ms, at);
            lemma_settle_parts(state, filled.layout, filled.open);
        } else {
            lemma_settle_parts(state, layout, false);
        }
        lemma_emit_fragments_parts(middle, tick, channel, fragments, k + 1, ms, mid);
    }
}

/// Every packet holds a part while what is left is packed.
pub proof fn lemma_pack_rest_parts(
    state: PackState,
    tick: Tick,
    channel: ChannelId,
    ms: Seq<SingleView>,
    at: int,
)
    requires
        has_parts(state),
        all_wf(ms),
        0 <= at <= ms.len(),
    ensures
        has_parts(pack_rest(state, tick, channel, ms, at)),
    decreases ms.len() - at,
{
    if at < ms.len() {
        let closed = state.close();
        let layout = PacketLayout::single(fresh_header(closed, PacketType::Data, tick));
        let filled = fill(layout, channel, ms, at);
        lemma_fresh_packet_takes_one(layout.header, channel, ms, at);
        lemma_fill_keeps_parts(layout, channel, ms, at);
        lemma_settle_parts(state, filled.layout, filled.open);
        lemma_pack_rest_parts(
            closed.issue().settle(filled.layout, filled.open),
            tick,
            channel,
            ms,
            filled.end,
        );
    }
}

/// Every packet holds a part while a channel is packed.
pub proof fn lemma_pack_channel_parts(state: PackState, tick: Tick, queues: ChannelQueues)
    requires
        has_parts(state),
        queues.wf(),
    ensures
        has_parts(pack_channel(state, tick, queues)),
{
    let channel = queues.channel;
    let ms = sort_by_len(queues.singles);
    lemma_sort_all_wf(queues.singles);
    let (drained, at) = drain(state, channel, ms);
    lemma_drain_adds(state, channel, ms);
    match state.open {
        Some(layout) => {
            let filled = fill(layout, channel, ms, 0);
            lemma_fill_keeps_parts(layout, channel, ms, 0);
            assert(drained.all() =~= state.closed.push(filled.layout));
            assert forall|i: int| 0 <= i < drained.all().len() implies (
            #[trigger] drained.all()[i]).channels().len() > 0 by {
                if i < state.closed.len() {
                    assert(drained.all()[i] == state.all()[i]);
                } else {
                    assert(state.all()[i] == layout);
                }
            }
        },
        None => {},
    }
    lemma_emit_fragments_parts(drained, tick, channel, queues.fragments, 0, ms, at);
    let (emitted, end) = emit_fragments(drained, tick, channel, queues.fragments, 0, ms, at);
    lemma_emit_fragments_adds(drained, tick, channel, queues.fragments, 0, ms, at);
    lemma_pack_rest_parts(emitted, tick, channel, ms, end);
}

/// Every packet holds a part while the first `n` channels are packed.
pub proof fn lemma_pack_channels_parts(
    state: PackState,
    tick: Tick,
    channels: Seq<ChannelQueues>,
    n: int,
)
    requires
        has_parts(state),
        all_queues_wf(channels),
        0 <= n <= channels.len(),
    ensures
        has_parts(pack_channels(state, tick, channels, n)),
    decreases n,
{
    if n > 0 {
        lemma_pack_channels_parts(state, tick, channels, n - 1);
        lemma_pack_channel_parts(
            pack_channels(state, tick, channels, n - 1),
            tick,
            channels[n - 1],
        );
    }
}

/// **The packets of a channel follow one another.** Every packet that a
/// build sends holds a part. A packet that is sent between two packets
/// that hold parts of one channel holds parts of that channel only: the
/// packets of a channel are consecutive, and a channel goes on in the next
/// packet only where its packet was finished.
pub proof fn lemma_channel_packets_consecutive(
    first_id: PacketId,
    tick: Tick,
    data: Map<ChannelId, ChannelData>,
    channel: ChannelId,
    i: int,
    k: int,
    j: int,
)
    requires
        data_wf(data),
        0 <= i < k < j < pack(PackState::start(first_id), tick, channels_of(data)).len(),
        pack(PackState::start(first_id), tick, channels_of(data))[i].channels().contains(
            channel,
        ),
        pack(PackState::start(first_id), tick, channels_of(data))[j].channels().contains(
            channel,
        ),
    ensures
        ({
            let parts = pack(PackState::start(first_id), tick, channels_of(data))[k].channels();
            &&& parts.len() > 0
            &&& forall|p: int| 0 <= p < parts.len() ==> parts[p] == channel
        }),
{
    let start = PackState::start(first_id);
    let channels = channels_of(data);
    let sent = pack(start, tick, channels);
    let trace = packets_channels(sent);
    lemma_channels_ascending(first_id, tick, data);
    lemma_channels_below_listed(data, 0x1_0000);
    lemma_pack_channels_parts(start, tick, channels, channels.len() as int);
    let a = choose|a: int| 0 <= a < sent[i].channels().len() && sent[i].channels()[a] == channel;
    let b = choose|b: int| 0 <= b < sent[j].channels().len() && sent[j].channels()[b] == channel;
    lemma_parts_of_packet(sent, i, a);
    lemma_parts_of_packet(sent, j, b);
    lemma_parts_grow(sent, i + 1, k);
    lemma_parts_grow(sent, k + 1, j);
    assert(sent[k].channels().len() > 0);
    assert forall|p: int| 0 <= p < sent[k].channels().len() implies sent[k].channels()[p]
        == channel by {
        lemma_parts_of_packet(sent, k, p);
        lemma_channel_contiguous(
            trace,
            parts_before(sent, i) + a,
            parts_before(sent, j) + b,
            parts_before(sent, k) + p,
        );
    }
}

/// **A channel is sent in one piece.** Where the channels stand in
/// ascending order, the parts of one channel follow one another: between
/// two parts of a channel there are only parts of that channel.
pub proof fn lemma_channel_contiguous(trace: Seq<ChannelId>, i: int, j: int, k: int)
    requires
        non_decreasing(trace),
        0 <= i <= k <= j < trace.len(),
        trace[i] == trace[j],
    ensures
        trace[k] == trace[i],
{
}

} // verus!
