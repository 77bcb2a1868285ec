//! The packet builder: opens packets, fills them with the messages of a
//! channel and hands them out.

use crate::channels::{
    channel_entries, channels_of, data_wf, entry_queues, lists_channels, queues_of, ChannelData,
};
use crate::error::SerializationError;
use crate::grammar::{lemma_parse_packet, parse_packet};
use crate::header::{next_id, PacketHeader, PacketHeaderManager, PacketType, Tick};
use crate::layout::{
    all_wf, channel_prefix_size, lemma_messages_push, messages_acks, messages_bytes,
    messages_size, Block, PacketLayout, MAX_BLOCK_MESSAGES,
};
use crate::message::{single_views, ChannelId, FragmentData, MessageAck, SingleData};
use crate::model::{
    drain, emit_fragment, emit_fragments, fill, fit_end, fresh_header,
    lemma_fresh_packet_takes_one, pack, pack_channel, pack_channels, pack_rest, PackState,
};
use crate::packet::Packet;
use crate::sort::{lemma_sort_all_wf, sort_by_len, sorted_by_len};
use crate::wire::{varint_bytes, varint_len, write_u8, write_varint};
use crate::MTU_PAYLOAD_BYTES;
use std::collections::BTreeMap;
use std::collections::VecDeque;
use vstd::prelude::*;

verus! {

/// The bytes of a packet.
pub type Payload = Vec<u8>;

/// Gives the capacity that `buf` does not use back to the allocator, with
/// `Vec::shrink_to_fit`.
///
/// Trusted: the vector holds afterwards what it held before.
#[verifier::external_body]
fn shrink(buf: &mut Vec<u8>)
    ensures
        final(buf)@ == old(buf)@,
{
    buf.shrink_to_fit()
}

/// Writes the headers of packets and packs messages into them.
pub struct PacketBuilder {
    pub header_manager: PacketHeaderManager,
    pub current_packet: Option<Packet>,
}

impl PacketBuilder {
    /// The packets of a build in progress: those in `packets` are finished.
    pub open spec fn state(&self, packets: Seq<Packet>) -> PackState {
        PackState {
            closed: layouts(packets),
            open: match self.current_packet {
                Some(packet) => Some(packet@),
                None => None,
            },
            next_id: self.header_manager.next_packet_id,
        }
    }

    /// The open packet, if there is one, is well formed, has nothing
    /// reserved and may take channel blocks.
    pub open spec fn ready(&self) -> bool {
        self.current_packet matches Some(packet) ==> packet.wf() && packet.prewritten_size == 0
            && packet@.takes_blocks()
    }

    /// A builder that takes its headers from `header_manager` and has no
    /// packet open.
    pub fn new(header_manager: PacketHeaderManager) -> (b: Self)
        ensures
            b.header_manager == header_manager,
            b.current_packet is None,
    {
        PacketBuilder { header_manager, current_packet: None }
    }

    /// An empty buffer with room for one packet.
    pub fn get_new_buffer(&self) -> (buf: Payload)
        ensures
            buf@ == Seq::<u8>::empty(),
    {
        Vec::with_capacity(MTU_PAYLOAD_BYTES)
    }

    /// Opens a packet of channel blocks: it holds a new header with the
    /// given tick and nothing else. No packet may be open: a packet that is
    /// open is finished first, with `finish_packet`.
    pub fn build_new_single_packet(&mut self, current_tick: Tick) -> (r: Result<
        (),
        SerializationError,
    >)
        requires
            old(self).current_packet is None,
        ensures
            r is Ok,
            final(self).header_manager.next_packet_id == next_id(
                old(self).header_manager.next_packet_id,
            ),
            ({
                &&& final(self).current_packet matches Some(packet)
                &&& packet.wf()
                &&& packet.prewritten_size == 0
                &&& packet@ == PacketLayout::single(
                    PacketHeader {
                        packet_type: PacketType::Data,
                        packet_id: old(self).header_manager.next_packet_id,
                        tick: current_tick,
                    },
                )
            }),
    {
        let mut cursor = self.get_new_buffer();
        let mut header = self.header_manager.prepare_send_packet_header(PacketType::Data);
        header.tick = current_tick;
        header.to_bytes(&mut cursor)?;
        let ghost layout = PacketLayout::single(header);
        self.current_packet = Some(
            Packet {
                payload: cursor,
                message_acks: Vec::new(),
                packet_id: header.packet_id,
                prewritten_size: 0,
                layout: Ghost(layout),
            },
        );
        Ok(())
    }

    /// Opens a packet for one fragment of a message of `channel_id`: it
    /// holds a new header with the given tick, the channel id and the
    /// fragment, and asks for the fragment's acknowledgment. No packet may
    /// be open: a packet that is open is finished first, with
    /// `finish_packet`.
    pub fn build_new_fragment_packet(
        &mut self,
        channel_id: ChannelId,
        fragment_data: &FragmentData,
        current_tick: Tick,
    ) -> (r: Result<(), SerializationError>)
        requires
            old(self).current_packet is None,
            fragment_data@.wf(),
        ensures
            r is Ok,
            final(self).header_manager.next_packet_id == next_id(
                old(self).header_manager.next_packet_id,
            ),
            ({
                &&& final(self).current_packet matches Some(packet)
                &&& packet.wf()
                &&& packet.prewritten_size == 0
                &&& packet@ == PacketLayout::fragmented(
                    PacketHeader {
                        packet_type: PacketType::DataFragment,
                        packet_id: old(self).header_manager.next_packet_id,
                        tick: current_tick,
                    },
                    channel_id,
                    fragment_data@,
                )
            }),
    {
        let mut cursor = self.get_new_buffer();
        let mut header = self.header_manager.prepare_send_packet_header(
            PacketType::DataFragment,
        );
        header.tick = current_tick;
        header.to_bytes(&mut cursor)?;
        write_varint(&mut cursor, channel_id as u64)?;
        fragment_data.to_bytes(&mut cursor)?;
        let ghost layout = PacketLayout::fragmented(header, channel_id, fragment_data@);
        proof {
            assert(cursor@ =~= layout.encoding());
        }
        let mut message_acks: Vec<(ChannelId, MessageAck)> = Vec::new();
        message_acks.push(
            (
                channel_id,
                MessageAck {
                    message_id: fragment_data.message_id,
                    fragment_id: Some(fragment_data.fragment_id),
                },
            ),
        );
        self.current_packet = Some(
            Packet {
                payload: cursor,
                message_acks,
                packet_id: header.packet_id,
                prewritten_size: 0,
                layout: Ghost(layout),
            },
        );
        Ok(())
    }

    /// Finishes the open packet and hands it out; no packet is open
    /// afterwards.
    pub fn finish_packet(&mut self) -> (packet: Packet)
        requires
            old(self).current_packet is Some,
        ensures
            final(self).current_packet is None,
            final(self).header_manager == old(self).header_manager,
            packet.payload@ == old(self).current_packet->0.payload@,
            packet.message_acks == old(self).current_packet->0.message_acks,
            packet.packet_id == old(self).current_packet->0.packet_id,
            packet.prewritten_size == old(self).current_packet->0.prewritten_size,
            packet@ == old(self).current_packet->0@,
    {
        let mut packet = self.current_packet.take().unwrap();
        shrink(&mut packet.payload);
        packet
    }

    /// Writes the messages from index `start` up to index `end` into the
    /// packet as one block of `channel_id`, with their acknowledgments, and
    /// releases what was reserved for the block; then `start` is `end`.
    /// Where there is no message, only the reserved prefix is released.
    ///
    /// Fails if less was reserved than the block needs, and only then; the
    /// packet and the two indices are then as they were.
    pub fn write_single_messages(
        packet: &mut Packet,
        messages: &Vec<&SingleData>,
        start: &mut usize,
        end: &mut usize,
        channel_id: ChannelId,
    ) -> (r: Result<(), SerializationError>)
        requires
            old(packet).wf(),
            *old(start) <= *old(end) <= messages@.len(),
            *old(end) - *old(start) <= MAX_BLOCK_MESSAGES,
            all_wf(single_views(messages@)),
            *old(start) < *old(end) ==> old(packet)@.takes_blocks(),
        ensures
            ({
                let run = single_views(messages@).subrange(*old(start) as int, *old(end) as int);
                let needed = channel_prefix_size(channel_id) + messages_size(run);
                &&& r is Ok <==> old(packet).prewritten_size >= needed
                &&& match r {
                    Ok(()) => {
                        &&& final(packet).wf()
                        &&& final(packet)@ == if run.len() > 0 {
                            old(packet)@.push_block(Block { channel: channel_id, messages: run })
                        } else {
                            old(packet)@
                        }
                        &&& final(packet).prewritten_size == old(packet).prewritten_size - needed
                        &&& *final(start) == *old(end)
                        &&& *final(end) == *old(end)
                    },
                    Err(e) => {
                        &&& e is SubstractionOverflow
                        &&& *final(packet) == *old(packet)
                        &&& *final(start) == *old(start)
                        &&& *final(end) == *old(end)
                    },
                }
            }),
    {
        let first: usize = *start;
        let last: usize = *end;
        let ghost views = single_views(messages@);
        let ghost run = views.subrange(first as int, last as int);
        let prefix: usize = varint_len(channel_id as u64) + 1;
        let mut needed: usize = prefix;
        let mut i: usize = first;
        while i < last
            invariant
                first <= i <= last <= messages@.len(),
                last - first <= MAX_BLOCK_MESSAGES,
                views == single_views(messages@),
                all_wf(views),
                prefix == channel_prefix_size(channel_id),
                prefix <= 9,
                needed == prefix + messages_size(views.subrange(first as int, i as int)),
                // no encoded message is longer than FRAGMENT_SIZE + 5
                needed <= prefix + (i - first) * 1105,
            decreases last - i,
        {
            proof {
                let m = views[i as int];
                lemma_messages_push(channel_id, views.subrange(first as int, i as int), m);
                assert(views.subrange(first as int, i + 1) =~= views.subrange(
                    first as int,
                    i as int,
                ).push(m));
            }
            needed = needed + messages[i].len();
            i = i + 1;
        }
        if packet.prewritten_size < needed {
            return Err(SerializationError::SubstractionOverflow);
        }
        if last > first {
            write_varint(&mut packet.payload, channel_id as u64)?;
            write_u8(&mut packet.payload, (last - first) as u8)?;
            let mut j: usize = first;
            while j < last
                invariant
                    first <= j <= last <= messages@.len(),
                    last - first <= MAX_BLOCK_MESSAGES,
                    views == single_views(messages@),
                    all_wf(views),
                    packet.payload@ == old(packet).payload@ + varint_bytes(channel_id as u64)
                        + seq![(last - first) as u8] + messages_bytes(
                        views.subrange(first as int, j as int),
                    ),
                    packet.message_acks@ == old(packet).message_acks@ + messages_acks(
                        channel_id,
                        views.subrange(first as int, j as int),
                    ),
                    packet.packet_id == old(packet).packet_id,
                    packet.prewritten_size == old(packet).prewritten_size,
                    packet.layout == old(packet).layout,
                decreases last - j,
            {
                let ghost m = views[j as int];
                messages[j].to_bytes(&mut packet.payload)?;
                match messages[j].id {
                    Some(id) => {
                        packet.message_acks.push(
                            (channel_id, MessageAck { message_id: id, fragment_id: None }),
                        );
                    },
                    None => {},
                }
                proof {
                    let before = views.subrange(first as int, j as int);
                    lemma_messages_push(channel_id, before, m);
                    assert(views.subrange(first as int, j + 1) =~= before.push(m));
                }
                j = j + 1;
            }
            let ghost block = Block { channel: channel_id, messages: run };
            let ghost layout = old(packet)@.push_block(block);
            proof {
                old(packet)@.lemma_push_block(block);
                old(packet)@.lemma_size();
                layout.lemma_size();
                assert(packet.payload@ =~= layout.encoding());
            }
            packet.layout = Ghost(layout);
        }
        packet.prewritten_size = packet.prewritten_size - needed;
        *start = last;
        Ok(())
    }

    /// Packs the messages from index `at` on into the packet, as `fill`
    /// says: reserves the channel's prefix, reserves messages while they
    /// fit, and writes what was reserved. Gives whether the packet stays
    /// open.
    fn fill_packet(
        packet: &mut Packet,
        channel_id: ChannelId,
        messages: &Vec<&SingleData>,
        at: &mut usize,
    ) -> (r: Result<bool, SerializationError>)
        requires
            old(packet).wf(),
            old(packet).prewritten_size == 0,
            old(packet)@.takes_blocks(),
            *old(at) <= messages@.len(),
            all_wf(single_views(messages@)),
        ensures
            r is Ok,
            r matches Ok(open) ==> ({
                let filled = fill(
                    old(packet)@,
                    channel_id,
                    single_views(messages@),
                    *old(at) as int,
                );
                &&& final(packet).wf()
                &&& final(packet).prewritten_size == 0
                &&& final(packet)@.takes_blocks()
                &&& final(packet)@ == filled.layout
                &&& *final(at) == filled.end
                &&& *old(at) <= *final(at) <= messages@.len()
                &&& open == filled.open
            }),
    {
        proof {
            packet@.lemma_size();
        }
        if !packet.can_fit_channel(channel_id) {
            return Ok(false);
        }
        let start: usize = *at;
        let mut end: usize = start;
        let ghost views = single_views(messages@);
        let ghost room: int = MTU_PAYLOAD_BYTES - packet@.size() - channel_prefix_size(channel_id);
        while end < messages.len() && end - start < MAX_BLOCK_MESSAGES
            invariant
                start <= end <= messages@.len(),
                end - start <= MAX_BLOCK_MESSAGES,
                views == single_views(messages@),
                all_wf(views),
                packet.payload == old(packet).payload,
                packet.message_acks == old(packet).message_acks,
                packet.packet_id == old(packet).packet_id,
                packet.layout == old(packet).layout,
                packet.prewritten_size == channel_prefix_size(channel_id) + messages_size(
                    views.subrange(start as int, end as int),
                ),
                packet.payload@.len() + packet.prewritten_size <= MTU_PAYLOAD_BYTES,
                room == MTU_PAYLOAD_BYTES - packet.payload@.len() - channel_prefix_size(
                    channel_id,
                ),
                fit_end(views, start as int, room, MAX_BLOCK_MESSAGES as int) == fit_end(
                    views,
                    end as int,
                    packet.room(),
                    MAX_BLOCK_MESSAGES - (end - start),
                ),
            ensures
                start <= end <= messages@.len(),
                end - start <= MAX_BLOCK_MESSAGES,
                packet.payload == old(packet).payload,
                packet.message_acks == old(packet).message_acks,
                packet.packet_id == old(packet).packet_id,
                packet.layout == old(packet).layout,
                packet.prewritten_size == channel_prefix_size(channel_id) + messages_size(
                    views.subrange(start as int, end as int),
                ),
                fit_end(views, start as int, room, MAX_BLOCK_MESSAGES as int) == end,
            decreases messages@.len() - end,
        {
            let ghost m = views[end as int];
            let len: usize = messages[end].len();
            if !packet.can_fit(len) {
                break;
            }
            proof {
                lemma_messages_push(channel_id, views.subrange(start as int, end as int), m);
                assert(views.subrange(start as int, end + 1) =~= views.subrange(
                    start as int,
                    end as int,
                ).push(m));
            }
            packet.prewritten_size += len;
            end = end + 1;
        }
        let mut first: usize = start;
        let mut last: usize = end;
        Self::write_single_messages(packet, messages, &mut first, &mut last, channel_id)?;
        *at = end;
        Ok(end == messages.len())
    }

    /// Finishes the open packet, if there is one, and appends it to
    /// `packets`.
    fn close_open(&mut self, packets: &mut Vec<Packet>)
        requires
            old(self).current_packet matches Some(packet) ==> packet.wf()
                && packet.prewritten_size == 0,
            all_finished(old(packets)@),
        ensures
            final(self).current_packet is None,
            final(self).header_manager == old(self).header_manager,
            all_finished(final(packets)@),
            final(self).state(final(packets)@) == old(self).state(old(packets)@).close(),
    {
        if self.current_packet.is_some() {
            let packet = self.finish_packet();
            packets.push(packet);
            assert(layouts(packets@) =~= layouts(old(packets)@).push(packet@));
        }
    }

    /// Keeps `packet` as the open packet, or finishes it and appends it to
    /// `packets`.
    fn settle(&mut self, packets: &mut Vec<Packet>, packet: Packet, open: bool)
        requires
            old(self).current_packet is None,
            all_finished(old(packets)@),
            packet.wf(),
            packet.prewritten_size == 0,
            packet@.takes_blocks() || !open,
        ensures
            final(self).ready(),
            final(self).header_manager == old(self).header_manager,
            all_finished(final(packets)@),
            final(self).state(final(packets)@) == old(self).state(old(packets)@).settle(
                packet@,
                open,
            ),
    {
        self.current_packet = Some(packet);
        if !open {
            let packet = self.finish_packet();
            packets.push(packet);
            assert(layouts(packets@) =~= layouts(old(packets)@).push(packet@));
        }
    }

    /// Continues the open packet, if there is one, with the messages of
    /// `channel_id`. Gives the index of the first message that is left.
    fn drain_open(
        &mut self,
        packets: &mut Vec<Packet>,
        channel_id: ChannelId,
        messages: &Vec<&SingleData>,
    ) -> (r: Result<usize, SerializationError>)
        requires
            old(self).ready(),
            all_finished(old(packets)@),
            all_wf(single_views(messages@)),
        ensures
            r is Ok,
            r matches Ok(at) ==> ({
                &&& final(self).ready()
                &&& all_finished(final(packets)@)
                &&& at <= messages@.len()
                &&& (final(self).state(final(packets)@), at as int) == drain(
                    old(self).state(old(packets)@),
                    channel_id,
                    single_views(messages@),
                )
            }),
    {
        match self.current_packet.take() {
            Some(mut packet) => {
                let mut at: usize = 0;
                let open = Self::fill_packet(&mut packet, channel_id, messages, &mut at)?;
                self.settle(packets, packet, open);
                Ok(at)
            },
            None => Ok(0),
        }
    }

    /// Sends one fragment in a packet of its own, as `emit_fragment` says.
    fn emit_fragment(
        &mut self,
        packets: &mut Vec<Packet>,
        current_tick: Tick,
        channel_id: ChannelId,
        fragment: &FragmentData,
        messages: &Vec<&SingleData>,
        at: &mut usize,
    ) -> (r: Result<(), SerializationError>)
        requires
            old(self).ready(),
            all_finished(old(packets)@),
            fragment@.wf(),
            *old(at) <= messages@.len(),
            all_wf(single_views(messages@)),
        ensures
            r is Ok,
            final(self).ready(),
            all_finished(final(packets)@),
            *old(at) <= *final(at) <= messages@.len(),
            (final(self).state(final(packets)@), *final(at) as int) == emit_fragment(
                old(self).state(old(packets)@),
                current_tick,
                channel_id,
                fragment@,
                single_views(messages@),
                *old(at) as int,
            ),
    {
        self.close_open(packets);
        self.build_new_fragment_packet(channel_id, fragment, current_tick)?;
        let mut packet = self.current_packet.take().unwrap();
        if fragment.is_last_fragment() {
            let open = Self::fill_packet(&mut packet, channel_id, messages, at)?;
            self.settle(packets, packet, open);
        } else {
            self.settle(packets, packet, false);
        }
        Ok(())
    }

    /// Packs the pending messages and fragments of one channel, as
    /// `pack_channel` says.
    fn pack_one_channel(
        &mut self,
        packets: &mut Vec<Packet>,
        current_tick: Tick,
        channel_id: ChannelId,
        singles: &VecDeque<SingleData>,
        fragments: &VecDeque<FragmentData>,
    ) -> (r: Result<(), SerializationError>)
        requires
            old(self).ready(),
            all_finished(old(packets)@),
            queues_of(channel_id, singles@, fragments@).wf(),
        ensures
            r is Ok,
            final(self).ready(),
            all_finished(final(packets)@),
            final(self).state(final(packets)@) == pack_channel(
                old(self).state(old(packets)@),
                current_tick,
                queues_of(channel_id, singles@, fragments@),
            ),
    {
        let ghost queues = queues_of(channel_id, singles@, fragments@);
        let ghost ms = sort_by_len(queues.singles);
        proof {
            lemma_sort_all_wf(queues.singles);
        }
        let messages = sorted_by_len(singles);
        let mut at: usize = self.drain_open(packets, channel_id, &messages)?;
        let ghost drained = self.state(packets@);
        let ghost drained_at = at;
        let mut k: usize = 0;
        while k < fragments.len()
            invariant
                self.ready(),
                all_finished(packets@),
                k <= fragments@.len(),
                at <= messages@.len(),
                queues == queues_of(channel_id, singles@, fragments@),
                queues.wf(),
                ms == single_views(messages@),
                all_wf(ms),
                emit_fragments(
                    self.state(packets@),
                    current_tick,
                    channel_id,
                    queues.fragments,
                    k as int,
                    ms,
                    at as int,
                ) == emit_fragments(
                    drained,
                    current_tick,
                    channel_id,
                    queues.fragments,
                    0,
                    ms,
                    drained_at as int,
                ),
            decreases fragments@.len() - k,
        {
            self.emit_fragment(
                packets,
                current_tick,
                channel_id,
                &fragments[k],
                &messages,
                &mut at,
            )?;
            k = k + 1;
        }
        let ghost emitted = self.state(packets@);
        let ghost emitted_at = at;
        while at < messages.len()
            invariant
                self.ready(),
                all_finished(packets@),
                at <= messages@.len(),
                ms == single_views(messages@),
                all_wf(ms),
                pack_rest(self.state(packets@), current_tick, channel_id, ms, at as int)
                    == pack_rest(emitted, current_tick, channel_id, ms, emitted_at as int),
            decreases messages@.len() - at,
        {
            proof {
                lemma_fresh_packet_takes_one(
                    fresh_header(self.state(packets@).close(), PacketType::Data, current_tick),
                    channel_id,
                    ms,
                    at as int,
                );
            }
            self.close_open(packets);
            self.build_new_single_packet(current_tick)?;
            let mut packet = self.current_packet.take().unwrap();
            let open = Self::fill_packet(&mut packet, channel_id, &messages, &mut at)?;
            self.settle(packets, packet, open);
        }
        Ok(())
    }

    /// Packs the pending messages and fragments of all channels into
    /// packets and gives the packets in the order in which they are to be
    /// sent. The channels are taken in ascending order of their ids and each
    /// is packed as `pack_channel` says; the packet that is open at the end
    /// is finished too.
    ///
    /// The build always succeeds: no write into a payload fails, and
    /// nothing is ever written that was not reserved.
    pub fn build_packets(
        &mut self,
        current_tick: Tick,
        data: BTreeMap<ChannelId, ChannelData>,
    ) -> (r: Result<Vec<Packet>, SerializationError>)
        requires
            old(self).ready(),
            data_wf(data@),
        ensures
            r is Ok,
            final(self).current_packet is None,
            r matches Ok(packets) ==> ({
                let start = old(self).state(Seq::empty());
                let channels = channels_of(data@);
                &&& layouts(packets@) == pack(start, current_tick, channels)
                &&& old(self).current_packet is None ==> start == PackState::start(
                    old(self).header_manager.next_packet_id,
                )
                &&& final(self).header_manager.next_packet_id == pack_channels(
                    start,
                    current_tick,
                    channels,
                    channels.len() as int,
                ).next_id
                &&& all_finished(packets@)
                &&& forall|i: int|
                    0 <= i < packets@.len() ==> (#[trigger] packets@[i]).payload@.len()
                        <= MTU_PAYLOAD_BYTES
                &&& forall|i: int|
                    0 <= i < packets@.len() ==> (#[trigger] packets@[i]).message_acks@
                        == packets@[i]@.acks()
                &&& forall|i: int|
                    0 <= i < packets@.len() && !(#[trigger] packets@[i])@.takes_blocks()
                        ==> packets@[i]@.blocks.len() == 0
                &&& forall|i: int|
                    0 <= i < packets@.len() ==> parse_packet((#[trigger] packets@[i]).payload@)
                        == Some(packets@[i]@)
            }),
    {
        let entries = channel_entries(&data);
        let ghost channels = channels_of(data@);
        let ghost start = self.state(Seq::empty());
        let mut packets: Vec<Packet> = Vec::new();
        assert(start.closed =~= Seq::empty());
        let mut i: usize = 0;
        while i < entries.len()
            invariant
                i <= entries@.len(),
                self.ready(),
                all_finished(packets@),
                data_wf(data@),
                lists_channels(entries@, data@),
                channels == entry_queues(entries@),
                self.state(packets@) == pack_channels(start, current_tick, channels, i as int),
                start == old(self).state(Seq::empty()),
            decreases entries@.len() - i,
        {
            let (channel_id, queues) = entries[i];
            self.pack_one_channel(&mut packets, current_tick, channel_id, &queues.0, &queues.1)?;
            i = i + 1;
        }
        self.close_open(&mut packets);
        assert forall|i: int| 0 <= i < packets@.len() implies (
        #[trigger] packets@[i]).payload@.len() <= MTU_PAYLOAD_BYTES && parse_packet(
            packets@[i].payload@,
        ) == Some(packets@[i]@) by {
            lemma_parse_packet(packets@[i]@);
        }
        Ok(packets)
    }
}

/// What the packets hold.
pub open spec fn layouts(packets: Seq<Packet>) -> Seq<PacketLayout> {
    packets.map_values(|p: Packet| p@)
}

/// Every packet is well formed and has nothing reserved.
pub open spec fn all_finished(packets: Seq<Packet>) -> bool {
    forall|i: int|
        0 <= i < packets.len() ==> (#[trigger] packets[i]).wf() && packets[i].prewritten_size == 0
}

} // verus!
