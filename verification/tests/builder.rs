use packet_builder::builder::PacketBuilder;
use packet_builder::channels::ChannelData;
use packet_builder::error::SerializationError;
use packet_builder::header::{PacketHeaderManager, PacketId, Tick};
use packet_builder::message::{
    ChannelId, FragmentData, MessageAck, MessageId, SingleData, FRAGMENT_SIZE,
};
use packet_builder::packet::Packet;
use packet_builder::MTU_PAYLOAD_BYTES;
use std::collections::{BTreeMap, VecDeque};

fn new_builder() -> PacketBuilder {
    PacketBuilder::new(PacketHeaderManager::new())
}

fn singles(messages: Vec<SingleData>) -> ChannelData {
    (VecDeque::from(messages), VecDeque::new())
}

/// The payloads of everything that the packets hold for a channel, packet
/// by packet.
fn payloads(packets: &Vec<Packet>, channel: ChannelId) -> Vec<Vec<u8>> {
    let mut all = Vec::new();
    for packet in packets {
        let contents = packet.parse_packet_payload().unwrap();
        if let Some(found) = contents.get(channel) {
            all.extend(found);
        }
    }
    all
}

/// Splits a payload into fragments of the largest size.
fn fragments_of(message_id: MessageId, bytes: &[u8]) -> Vec<FragmentData> {
    let chunks: Vec<&[u8]> = bytes.chunks(FRAGMENT_SIZE).collect();
    let mut fragments = Vec::new();
    for (i, chunk) in chunks.iter().enumerate() {
        fragments.push(FragmentData {
            message_id,
            fragment_id: i as u8,
            num_fragments: chunks.len() as u8,
            bytes: chunk.to_vec(),
        });
    }
    fragments
}

/// A bunch of small messages that all fit in the same packet
#[test]
fn test_pack_small_messages() -> Result<(), SerializationError> {
    let mut manager = new_builder();
    let channel_id1: ChannelId = 0;
    let channel_id2: ChannelId = 1;
    let channel_id3: ChannelId = 2;

    let small_bytes = vec![7u8; 10];
    let small_message = SingleData::new(None, small_bytes.clone());

    let mut data = BTreeMap::new();
    data.insert(
        channel_id1,
        (VecDeque::from(vec![small_message.clone()]), VecDeque::new()),
    );
    data.insert(
        channel_id2,
        (
            VecDeque::from(vec![small_message.clone(), small_message.clone()]),
            VecDeque::new(),
        ),
    );
    data.insert(
        channel_id3,
        (VecDeque::from(vec![small_message.clone()]), VecDeque::new()),
    );
    let mut packets = manager.build_packets(Tick(0), data)?;
    assert_eq!(packets.len(), 1);
    let packet = packets.pop().unwrap();
    assert_eq!(packet.message_acks, vec![]);
    let contents = packet.parse_packet_payload()?;
    assert_eq!(
        contents.get(channel_id1).unwrap(),
        vec![small_bytes.clone()]
    );
    assert_eq!(
        contents.get(channel_id2).unwrap(),
        vec![small_bytes.clone(), small_bytes.clone()]
    );
    assert_eq!(
        contents.get(channel_id3).unwrap(),
        vec![small_bytes.clone()]
    );
    Ok(())
}

#[test]
fn three_channels_share_one_packet() {
    let mut builder = new_builder();
    let payload = vec![3u8; 10];
    let mut data = BTreeMap::new();
    for channel in [4u16, 9, 70] {
        data.insert(channel, singles(vec![SingleData::new(None, payload.clone())]));
    }
    let packets = builder.build_packets(Tick(5), data).unwrap();
    assert_eq!(packets.len(), 1);
    assert_eq!(packets[0].message_acks, vec![]);
    assert_eq!(packets[0].packet_id, PacketId(0));
    let mut expected = vec![0u8, 0, 0, 0, 5];
    for prefix in [vec![4u8], vec![9u8], vec![0x40u8, 70]] {
        expected.extend(prefix);
        expected.extend([1u8, 0, 10]);
        expected.extend(&payload);
    }
    assert_eq!(packets[0].payload, expected);
    let contents = packets[0].parse_packet_payload().unwrap();
    for channel in [4u16, 9, 70] {
        assert_eq!(contents.get(channel).unwrap(), vec![payload.clone()]);
    }
    assert_eq!(contents.get(5), None);
}

#[test]
fn last_fragment_shares_its_packet_with_a_small_message() {
    let mut builder = new_builder();
    let big: Vec<u8> =
        (0..2 * FRAGMENT_SIZE + FRAGMENT_SIZE / 2).map(|i| (i % 251) as u8).collect();
    let fragments = fragments_of(MessageId(11), &big);
    assert_eq!(fragments.len(), 3);
    let small = SingleData::new(Some(MessageId(12)), vec![1u8; 10]);
    let mut data = BTreeMap::new();
    data.insert(2u16, (VecDeque::from(vec![small]), VecDeque::from(fragments.clone())));
    let packets = builder.build_packets(Tick(1), data).unwrap();
    assert_eq!(packets.len(), 3);
    for (i, fragment) in fragments.iter().enumerate() {
        let contents = packets[i].parse_packet_payload().unwrap();
        assert_eq!(contents.fragment, Some((2u16, fragment.clone())));
        assert_eq!(packets[i].packet_id, PacketId(i as u16));
        assert_eq!(packets[i].payload[0], 1);
        if i < 2 {
            assert_eq!(contents.blocks.len(), 0);
            assert_eq!(
                packets[i].message_acks,
                vec![(2u16, MessageAck { message_id: MessageId(11), fragment_id: Some(i as u8) })]
            );
            assert_eq!(packets[i].payload.len(), 5 + 1 + 4 + 2 + FRAGMENT_SIZE);
        } else {
            assert_eq!(contents.blocks.len(), 1);
            assert_eq!(contents.blocks[0].0, 2);
            assert_eq!(
                contents.blocks[0].1,
                vec![SingleData::new(Some(MessageId(12)), vec![1u8; 10])]
            );
            assert_eq!(
                packets[i].message_acks,
                vec![
                    (2u16, MessageAck { message_id: MessageId(11), fragment_id: Some(2) }),
                    (2u16, MessageAck { message_id: MessageId(12), fragment_id: None }),
                ]
            );
        }
    }
}

#[test]
fn first_fragment_packet_bytes() {
    let mut builder = new_builder();
    let fragment = FragmentData {
        message_id: MessageId(0x0102),
        fragment_id: 0,
        num_fragments: 2,
        bytes: vec![9u8; 3],
    };
    let mut data = BTreeMap::new();
    data.insert(300u16, (VecDeque::new(), VecDeque::from(vec![fragment])));
    let packets = builder.build_packets(Tick(0x0a0b), data).unwrap();
    assert_eq!(packets.len(), 1);
    assert_eq!(
        packets[0].payload,
        vec![1u8, 0, 0, 0x0a, 0x0b, 0x41, 0x2c, 1, 2, 0, 2, 3, 9, 9, 9]
    );
}

#[test]
fn last_fragment_without_room_stands_alone() {
    let mut builder = new_builder();
    let fragments = fragments_of(MessageId(1), &vec![5u8; 2 * FRAGMENT_SIZE]);
    assert_eq!(fragments.len(), 2);
    let small = SingleData::new(None, vec![1u8; 100]);
    let mut data = BTreeMap::new();
    data.insert(0u16, (VecDeque::from(vec![small]), VecDeque::from(fragments)));
    let packets = builder.build_packets(Tick(0), data).unwrap();
    assert_eq!(packets.len(), 3);
    let blocks: Vec<usize> = packets
        .iter()
        .map(|p| p.parse_packet_payload().unwrap().blocks.len())
        .collect();
    assert_eq!(blocks, vec![0, 0, 1]);
    assert_eq!(packets[2].payload[0], 0);
}

#[test]
fn messages_that_exceed_one_packet_are_spread() {
    let mut builder = new_builder();
    let messages: Vec<SingleData> =
        (0..30u16).map(|i| SingleData::new(Some(MessageId(i)), vec![i as u8; 100])).collect();
    let mut data = BTreeMap::new();
    data.insert(1u16, singles(messages.clone()));
    let packets = builder.build_packets(Tick(0), data).unwrap();
    assert_eq!(packets.len(), 3);
    let counts: Vec<usize> = packets
        .iter()
        .map(|p| p.parse_packet_payload().unwrap().blocks[0].1.len())
        .collect();
    assert_eq!(counts, vec![10, 10, 10]);
    for packet in &packets {
        assert!(packet.payload.len() <= MTU_PAYLOAD_BYTES);
        assert_eq!(packet.prewritten_size, 0);
    }
    assert_eq!(packets[0].payload.len(), 5 + 2 + 10 * 105);
    let sent = payloads(&packets, 1);
    let queued: Vec<Vec<u8>> = messages.iter().map(|m| m.bytes.clone()).collect();
    assert_eq!(sent, queued);
    let acks: Vec<u16> = packets
        .iter()
        .flat_map(|p| p.message_acks.iter().map(|(_, ack)| ack.message_id.0))
        .collect();
    assert_eq!(acks, (0..30u16).collect::<Vec<u16>>());
}

#[test]
fn messages_are_sent_shortest_first() {
    let mut builder = new_builder();
    let messages = vec![
        SingleData::new(Some(MessageId(1)), vec![1u8; 50]),
        SingleData::new(Some(MessageId(2)), vec![2u8; 10]),
        SingleData::new(Some(MessageId(3)), vec![3u8; 30]),
    ];
    let mut data = BTreeMap::new();
    data.insert(0u16, singles(messages));
    let packets = builder.build_packets(Tick(0), data).unwrap();
    assert_eq!(packets.len(), 1);
    assert_eq!(
        payloads(&packets, 0),
        vec![vec![2u8; 10], vec![3u8; 30], vec![1u8; 50]]
    );
    let ids: Vec<u16> = packets[0].message_acks.iter().map(|(_, a)| a.message_id.0).collect();
    assert_eq!(ids, vec![2, 3, 1]);
}

#[test]
fn sorting_goes_by_encoded_length() {
    let mut builder = new_builder();
    let messages = vec![
        SingleData::new(Some(MessageId(1)), vec![1u8; 10]),
        SingleData::new(None, vec![2u8; 11]),
    ];
    assert_eq!(messages[0].len(), 14);
    assert_eq!(messages[1].len(), 13);
    let mut data = BTreeMap::new();
    data.insert(0u16, singles(messages));
    let packets = builder.build_packets(Tick(0), data).unwrap();
    assert_eq!(payloads(&packets, 0), vec![vec![2u8; 11], vec![1u8; 10]]);
}

#[test]
fn messages_of_equal_length_keep_their_order() {
    let mut builder = new_builder();
    let messages: Vec<SingleData> =
        [4u8, 2, 9, 1].iter().map(|b| SingleData::new(None, vec![*b; 8])).collect();
    let mut data = BTreeMap::new();
    data.insert(0u16, singles(messages));
    let packets = builder.build_packets(Tick(0), data).unwrap();
    assert_eq!(
        payloads(&packets, 0),
        vec![vec![4u8; 8], vec![2u8; 8], vec![9u8; 8], vec![1u8; 8]]
    );
}

#[test]
fn channels_are_sent_in_ascending_order() {
    let mut builder = new_builder();
    let mut data = BTreeMap::new();
    for channel in [5u16, 1, 3] {
        data.insert(channel, singles(vec![SingleData::new(None, vec![channel as u8; 4])]));
    }
    let packets = builder.build_packets(Tick(0), data).unwrap();
    assert_eq!(packets.len(), 1);
    let contents = packets[0].parse_packet_payload().unwrap();
    let order: Vec<ChannelId> = contents.blocks.iter().map(|b| b.0).collect();
    assert_eq!(order, vec![1, 3, 5]);
}

#[test]
fn open_packet_is_finished_before_a_fragment() {
    let mut builder = new_builder();
    let fragment = FragmentData {
        message_id: MessageId(8),
        fragment_id: 0,
        num_fragments: 3,
        bytes: vec![6u8; 20],
    };
    let mut data = BTreeMap::new();
    data.insert(1u16, singles(vec![SingleData::new(None, vec![1u8; 4])]));
    data.insert(
        2u16,
        (
            VecDeque::from(vec![SingleData::new(None, vec![2u8; 4])]),
            VecDeque::from(vec![fragment.clone()]),
        ),
    );
    let packets = builder.build_packets(Tick(0), data).unwrap();
    assert_eq!(packets.len(), 2);
    let first = packets[0].parse_packet_payload().unwrap();
    assert_eq!(first.fragment, None);
    assert_eq!(first.get(1).unwrap(), vec![vec![1u8; 4]]);
    assert_eq!(first.get(2).unwrap(), vec![vec![2u8; 4]]);
    let second = packets[1].parse_packet_payload().unwrap();
    assert_eq!(second.fragment, Some((2u16, fragment)));
    assert_eq!(second.blocks.len(), 0);
}

#[test]
fn no_message_is_lost_over_many_channels() {
    let mut builder = new_builder();
    let mut data = BTreeMap::new();
    let mut queued: BTreeMap<ChannelId, Vec<Vec<u8>>> = BTreeMap::new();
    for channel in 0..6u16 {
        let mut messages = Vec::new();
        for i in 0..40usize {
            let len = (i * 37 + channel as usize * 11) % 300;
            let bytes = vec![(channel as u8) * 40 + i as u8; len];
            messages.push(SingleData::new(None, bytes));
        }
        let big = vec![channel as u8; FRAGMENT_SIZE + 200 * channel as usize + 1];
        let fragments = fragments_of(MessageId(channel), &big);
        let mut all: Vec<Vec<u8>> = fragments.iter().map(|f| f.bytes.clone()).collect();
        all.extend(messages.iter().map(|m| m.bytes.clone()));
        all.sort();
        queued.insert(channel, all);
        data.insert(channel, (VecDeque::from(messages), VecDeque::from(fragments)));
    }
    let packets = builder.build_packets(Tick(9), data).unwrap();
    for channel in 0..6u16 {
        let mut sent = payloads(&packets, channel);
        sent.sort();
        assert_eq!(&sent, queued.get(&channel).unwrap());
    }
    assert_eq!(payloads(&packets, 6), Vec::<Vec<u8>>::new());
    let mut last_channel = 0u16;
    for (i, packet) in packets.iter().enumerate() {
        assert!(packet.payload.len() <= MTU_PAYLOAD_BYTES);
        assert_eq!(packet.packet_id, PacketId(i as u16));
        let contents = packet.parse_packet_payload().unwrap();
        if let Some((channel, fragment)) = &contents.fragment {
            assert!(*channel >= last_channel);
            last_channel = *channel;
            if !fragment.is_last_fragment() {
                assert_eq!(contents.blocks.len(), 0);
            }
        }
        for (channel, messages) in &contents.blocks {
            assert!(*channel >= last_channel);
            last_channel = *channel;
            assert!(!messages.is_empty());
        }
    }
    assert_eq!(builder.header_manager.next_packet_id, PacketId(packets.len() as u16));
}

#[test]
fn every_identified_message_has_one_ack_in_its_packet() {
    let mut builder = new_builder();
    let mut messages = Vec::new();
    for i in 0..60u16 {
        let id = if i % 3 == 0 { None } else { Some(MessageId(i)) };
        messages.push(SingleData::new(id, vec![i as u8; 50 + i as usize]));
    }
    let mut data = BTreeMap::new();
    data.insert(7u16, singles(messages));
    let packets = builder.build_packets(Tick(0), data).unwrap();
    assert!(packets.len() >= 2);
    let mut seen = 0;
    for packet in &packets {
        let contents = packet.parse_packet_payload().unwrap();
        let mut expected = Vec::new();
        for (channel, block) in &contents.blocks {
            for message in block {
                if let Some(id) = message.id {
                    expected.push((*channel, MessageAck { message_id: id, fragment_id: None }));
                }
            }
        }
        seen += expected.len();
        assert_eq!(packet.message_acks, expected);
    }
    assert_eq!(seen, 40);
}

#[test]
fn empty_input_gives_no_packet() {
    let mut builder = new_builder();
    let packets = builder.build_packets(Tick(0), BTreeMap::new()).unwrap();
    assert_eq!(packets.len(), 0);
    assert_eq!(builder.header_manager.next_packet_id, PacketId(0));
}

#[test]
fn channel_without_messages_gives_no_packet() {
    let mut builder = new_builder();
    let mut data: BTreeMap<ChannelId, ChannelData> = BTreeMap::new();
    data.insert(3, (VecDeque::new(), VecDeque::new()));
    data.insert(4, (VecDeque::new(), VecDeque::new()));
    let packets = builder.build_packets(Tick(0), data).unwrap();
    assert_eq!(packets.len(), 0);
    assert!(builder.current_packet.is_none());
}

#[test]
fn empty_channel_between_others_writes_nothing() {
    let mut builder = new_builder();
    let mut data: BTreeMap<ChannelId, ChannelData> = BTreeMap::new();
    data.insert(1, singles(vec![SingleData::new(None, vec![1u8; 2])]));
    data.insert(2, (VecDeque::new(), VecDeque::new()));
    data.insert(3, singles(vec![SingleData::new(None, vec![3u8; 2])]));
    let packets = builder.build_packets(Tick(0), data).unwrap();
    assert_eq!(packets.len(), 1);
    assert_eq!(
        packets[0].payload,
        vec![0u8, 0, 0, 0, 0, 1, 1, 0, 2, 1, 1, 3, 1, 0, 2, 3, 3]
    );
}

#[test]
fn a_block_holds_at_most_255_messages() {
    let mut builder = new_builder();
    let messages: Vec<SingleData> = (0..300).map(|_| SingleData::new(None, Vec::new())).collect();
    let mut data = BTreeMap::new();
    data.insert(0u16, singles(messages));
    let packets = builder.build_packets(Tick(0), data).unwrap();
    assert_eq!(packets.len(), 2);
    assert_eq!(packets[0].payload.len(), 5 + 2 + 255 * 2);
    assert_eq!(packets[0].payload[6], 255);
    assert_eq!(packets[1].payload.len(), 5 + 2 + 45 * 2);
    assert_eq!(packets[1].payload[6], 45);
    assert_eq!(payloads(&packets, 0).len(), 300);
}

#[test]
fn largest_message_fits_a_new_packet() {
    let mut builder = new_builder();
    let mut data = BTreeMap::new();
    let message = SingleData::new(Some(MessageId(1)), vec![8u8; FRAGMENT_SIZE]);
    assert!(message.is_wf());
    data.insert(u16::MAX, singles(vec![message.clone(), message]));
    let packets = builder.build_packets(Tick(0), data).unwrap();
    assert_eq!(packets.len(), 2);
    for packet in &packets {
        assert_eq!(packet.payload.len(), 5 + 4 + 1 + 5 + FRAGMENT_SIZE);
    }
}

#[test]
fn packet_ids_wrap_around() {
    let mut builder =
        PacketBuilder::new(PacketHeaderManager { next_packet_id: PacketId(u16::MAX) });
    let fragments = fragments_of(MessageId(0), &vec![1u8; 2 * FRAGMENT_SIZE]);
    let mut data = BTreeMap::new();
    data.insert(0u16, (VecDeque::new(), VecDeque::from(fragments)));
    let packets = builder.build_packets(Tick(0), data).unwrap();
    assert_eq!(packets.len(), 2);
    assert_eq!(packets[0].packet_id, PacketId(u16::MAX));
    assert_eq!(packets[1].packet_id, PacketId(0));
    assert_eq!(&packets[1].payload[1..3], &[0u8, 0]);
    assert_eq!(builder.header_manager.next_packet_id, PacketId(1));
}

#[test]
fn builder_can_be_used_again() {
    let mut builder = new_builder();
    for round in 0..3u16 {
        let mut data = BTreeMap::new();
        data.insert(1u16, singles(vec![SingleData::new(None, vec![round as u8; 3])]));
        let packets = builder.build_packets(Tick(round), data).unwrap();
        assert_eq!(packets.len(), 1);
        assert_eq!(packets[0].packet_id, PacketId(round));
        assert_eq!(&packets[0].payload[3..5], &[0u8, round as u8]);
    }
}

#[test]
fn new_single_packet_holds_only_a_header() {
    let mut builder = new_builder();
    builder.build_new_single_packet(Tick(0x0102)).unwrap();
    let packet = builder.finish_packet();
    assert!(builder.current_packet.is_none());
    assert_eq!(packet.payload, vec![0u8, 0, 0, 1, 2]);
    assert_eq!(packet.message_acks, vec![]);
    assert_eq!(packet.packet_id, PacketId(0));
    assert_eq!(packet.prewritten_size, 0);
    assert_eq!(builder.header_manager.next_packet_id, PacketId(1));
}

#[test]
fn new_fragment_packet_holds_the_fragment_and_its_ack() {
    let mut builder = new_builder();
    let fragment = FragmentData {
        message_id: MessageId(7),
        fragment_id: 1,
        num_fragments: 2,
        bytes: vec![4u8, 5],
    };
    assert!(fragment.is_wf());
    assert!(fragment.is_last_fragment());
    assert_eq!(fragment.len(), 7);
    builder.build_new_fragment_packet(64, &fragment, Tick(0)).unwrap();
    let packet = builder.finish_packet();
    assert_eq!(packet.payload, vec![1u8, 0, 0, 0, 0, 0x40, 64, 0, 7, 1, 2, 2, 4, 5]);
    assert_eq!(
        packet.message_acks,
        vec![(64u16, MessageAck { message_id: MessageId(7), fragment_id: Some(1) })]
    );
}

#[test]
fn open_packet_is_continued_by_the_next_build() {
    let mut builder = new_builder();
    builder.build_new_single_packet(Tick(1)).unwrap();
    let mut data = BTreeMap::new();
    data.insert(2u16, singles(vec![SingleData::new(None, vec![6u8])]));
    let packets = builder.build_packets(Tick(2), data).unwrap();
    assert_eq!(packets.len(), 1);
    assert_eq!(packets[0].payload, vec![0u8, 0, 0, 0, 1, 2, 1, 0, 1, 6]);
}

#[test]
fn get_new_buffer_is_empty() {
    let builder = new_builder();
    let buffer = builder.get_new_buffer();
    assert!(buffer.is_empty());
    assert!(buffer.capacity() >= MTU_PAYLOAD_BYTES);
}

#[test]
fn finish_packet_keeps_the_payload() {
    let mut builder = new_builder();
    builder.build_new_single_packet(Tick(0)).unwrap();
    let before = builder.current_packet.as_ref().unwrap().payload.clone();
    let packet = builder.finish_packet();
    assert_eq!(packet.payload, before);
    assert_eq!(packet.payload.len(), 5);
}

#[test]
fn write_single_messages_appends_a_block() {
    let mut builder = new_builder();
    builder.build_new_single_packet(Tick(0)).unwrap();
    let mut packet = builder.finish_packet();
    let first = SingleData::new(Some(MessageId(0x0a0b)), vec![1u8, 2]);
    let second = SingleData::new(None, vec![3u8]);
    let third = SingleData::new(None, vec![4u8]);
    let messages = vec![&first, &second, &third];
    assert!(packet.can_fit_channel(9));
    assert_eq!(packet.prewritten_size, 2);
    assert!(packet.can_fit(first.len()));
    packet.prewritten_size += first.len();
    packet.prewritten_size += second.len();
    let mut start = 0;
    let mut end = 2;
    PacketBuilder::write_single_messages(&mut packet, &messages, &mut start, &mut end, 9).unwrap();
    assert_eq!(start, 2);
    assert_eq!(end, 2);
    assert_eq!(packet.prewritten_size, 0);
    assert_eq!(
        packet.payload,
        vec![0u8, 0, 0, 0, 0, 9, 2, 1, 0x0a, 0x0b, 2, 1, 2, 0, 1, 3]
    );
    assert_eq!(
        packet.message_acks,
        vec![(9u16, MessageAck { message_id: MessageId(0x0a0b), fragment_id: None })]
    );
}

#[test]
fn write_single_messages_without_messages_releases_the_prefix() {
    let mut builder = new_builder();
    builder.build_new_single_packet(Tick(0)).unwrap();
    let mut packet = builder.finish_packet();
    let messages: Vec<&SingleData> = Vec::new();
    assert!(packet.can_fit_channel(100));
    assert_eq!(packet.prewritten_size, 3);
    let mut start = 0;
    let mut end = 0;
    PacketBuilder::write_single_messages(&mut packet, &messages, &mut start, &mut end, 100)
        .unwrap();
    assert_eq!(packet.prewritten_size, 0);
    assert_eq!(packet.payload.len(), 5);
}

#[test]
fn write_single_messages_refuses_what_was_not_reserved() {
    let mut builder = new_builder();
    builder.build_new_single_packet(Tick(0)).unwrap();
    let mut packet = builder.finish_packet();
    let message = SingleData::new(None, vec![1u8; 4]);
    let messages = vec![&message];
    assert!(packet.can_fit_channel(1));
    let mut start = 0;
    let mut end = 1;
    let r = PacketBuilder::write_single_messages(&mut packet, &messages, &mut start, &mut end, 1);
    assert!(matches!(r, Err(SerializationError::SubstractionOverflow)));
    assert_eq!(packet.payload.len(), 5);
    assert_eq!(packet.prewritten_size, 2);
    assert_eq!(start, 0);
}

#[test]
fn can_fit_counts_written_and_reserved_bytes() {
    let mut builder = new_builder();
    builder.build_new_single_packet(Tick(0)).unwrap();
    let mut packet = builder.finish_packet();
    assert!(packet.can_fit(MTU_PAYLOAD_BYTES - 5));
    assert!(!packet.can_fit(MTU_PAYLOAD_BYTES - 4));
    assert!(!packet.can_fit(usize::MAX));
    packet.prewritten_size = 100;
    assert!(packet.can_fit(MTU_PAYLOAD_BYTES - 105));
    assert!(!packet.can_fit(MTU_PAYLOAD_BYTES - 104));
    packet.prewritten_size = MTU_PAYLOAD_BYTES - 6;
    assert!(!packet.can_fit_channel(0));
    assert_eq!(packet.prewritten_size, MTU_PAYLOAD_BYTES - 6);
    packet.prewritten_size = MTU_PAYLOAD_BYTES - 7;
    assert!(packet.can_fit_channel(0));
    assert_eq!(packet.prewritten_size, MTU_PAYLOAD_BYTES - 5);
}

#[test]
fn two_long_messages_go_into_two_packets_shorter_first() {
    let mut builder = new_builder();
    let first = SingleData::new(Some(MessageId(0)), vec![0u8; MTU_PAYLOAD_BYTES - 100]);
    let second = SingleData::new(Some(MessageId(1)), vec![1u8; MTU_PAYLOAD_BYTES - 101]);
    let mut data = BTreeMap::new();
    data.insert(1u16, singles(vec![first, second]));
    let packets = builder.build_packets(Tick(0), data).unwrap();
    assert_eq!(packets.len(), 2);
    for packet in &packets {
        assert!(packet.payload.len() <= MTU_PAYLOAD_BYTES);
    }
    assert_eq!(
        packets[0].message_acks,
        vec![(1u16, MessageAck { message_id: MessageId(1), fragment_id: None })]
    );
    assert_eq!(
        packets[1].message_acks,
        vec![(1u16, MessageAck { message_id: MessageId(0), fragment_id: None })]
    );
}

#[test]
fn packets_of_a_channel_follow_one_another() {
    let mut builder = new_builder();
    let mut data = BTreeMap::new();
    for channel in [2u16, 5, 9] {
        let messages: Vec<SingleData> =
            (0..25).map(|i| SingleData::new(None, vec![i as u8; 120])).collect();
        data.insert(channel, singles(messages));
    }
    let packets = builder.build_packets(Tick(0), data).unwrap();
    let held: Vec<Vec<ChannelId>> = packets
        .iter()
        .map(|p| p.parse_packet_payload().unwrap().blocks.iter().map(|b| b.0).collect())
        .collect();
    for channels in &held {
        assert!(!channels.is_empty());
    }
    for channel in [2u16, 5, 9] {
        let with: Vec<usize> =
            (0..held.len()).filter(|k| held[*k].contains(&channel)).collect();
        assert!(with.len() >= 2);
        for k in with[0] + 1..with[with.len() - 1] {
            assert_eq!(held[k], vec![channel]);
        }
    }
}

#[test]
fn write_single_messages_succeeds_when_enough_is_reserved() {
    let mut builder = new_builder();
    builder.build_new_single_packet(Tick(0)).unwrap();
    let mut packet = builder.finish_packet();
    let message = SingleData::new(None, vec![1u8; 4]);
    let messages = vec![&message];
    assert!(packet.can_fit_channel(1));
    packet.prewritten_size += message.len() + 3;
    let total = packet.payload.len() + packet.prewritten_size;
    let mut start = 0;
    let mut end = 1;
    let r = PacketBuilder::write_single_messages(&mut packet, &messages, &mut start, &mut end, 1);
    assert!(r.is_ok());
    assert_eq!(packet.prewritten_size, 3);
    assert_eq!(packet.payload.len() + packet.prewritten_size, total);
    assert_eq!(packet.payload, vec![0u8, 0, 0, 0, 0, 1, 1, 0, 4, 1, 1, 1, 1]);
}
