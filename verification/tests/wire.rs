use packet_builder::header::{PacketHeader, PacketHeaderManager, PacketId, PacketType, Tick};
use packet_builder::message::{FragmentData, MessageId, SingleData, FRAGMENT_SIZE};
use packet_builder::wire::{varint_len, write_bytes, write_u16, write_u8, write_varint};

#[test]
fn write_u8_appends_the_byte() {
    let mut buf = vec![1u8];
    write_u8(&mut buf, 0xab).unwrap();
    assert_eq!(buf, vec![1u8, 0xab]);
}

#[test]
fn write_u16_appends_high_byte_first() {
    let mut buf = vec![1u8];
    write_u16(&mut buf, 0x1234).unwrap();
    write_u16(&mut buf, 0x00ff).unwrap();
    assert_eq!(buf, vec![1u8, 0x12, 0x34, 0x00, 0xff]);
}

#[test]
fn write_bytes_appends_a_copy() {
    let mut buf = vec![1u8];
    write_bytes(&mut buf, &vec![2u8, 3]);
    assert_eq!(buf, vec![1u8, 2, 3]);
}

#[test]
fn varint_len_at_the_class_limits() {
    assert_eq!(varint_len(0), 1);
    assert_eq!(varint_len(63), 1);
    assert_eq!(varint_len(64), 2);
    assert_eq!(varint_len(16383), 2);
    assert_eq!(varint_len(16384), 4);
    assert_eq!(varint_len((1 << 30) - 1), 4);
    assert_eq!(varint_len(1 << 30), 8);
    assert_eq!(varint_len((1 << 62) - 1), 8);
}

#[test]
fn write_varint_at_the_class_limits() {
    let cases: Vec<(u64, Vec<u8>)> = vec![
        (0, vec![0]),
        (63, vec![0x3f]),
        (64, vec![0x40, 0x40]),
        (1100, vec![0x44, 0x4c]),
        (16383, vec![0x7f, 0xff]),
        (16384, vec![0x80, 0x00, 0x40, 0x00]),
        ((1 << 30) - 1, vec![0xbf, 0xff, 0xff, 0xff]),
        (1 << 30, vec![0xc0, 0, 0, 0, 0x40, 0, 0, 0]),
        (0x0123_4567_89ab_cdef, vec![0xc1, 0x23, 0x45, 0x67, 0x89, 0xab, 0xcd, 0xef]),
        ((1 << 62) - 1, vec![0xff; 8]),
    ];
    for (value, bytes) in cases {
        let mut buf = Vec::new();
        write_varint(&mut buf, value).unwrap();
        assert_eq!(buf, bytes);
        assert_eq!(varint_len(value), bytes.len());
    }
}

#[test]
fn header_is_five_bytes() {
    let header = PacketHeader {
        packet_type: PacketType::DataFragment,
        packet_id: PacketId(0x0102),
        tick: Tick(0x0304),
    };
    let mut buf = Vec::new();
    header.to_bytes(&mut buf).unwrap();
    assert_eq!(buf, vec![1u8, 1, 2, 3, 4]);
    assert_eq!(header.len(), 5);
    assert_eq!(PacketType::Data.to_byte(), 0);
    assert_eq!(PacketType::from_byte(1), Some(PacketType::DataFragment));
    assert_eq!(PacketType::from_byte(2), None);
}

#[test]
fn header_manager_issues_ids_in_sequence() {
    let mut manager = PacketHeaderManager::new();
    let first = manager.prepare_send_packet_header(PacketType::Data);
    let second = manager.prepare_send_packet_header(PacketType::DataFragment);
    assert_eq!(
        first,
        PacketHeader { packet_type: PacketType::Data, packet_id: PacketId(0), tick: Tick(0) }
    );
    assert_eq!(second.packet_id, PacketId(1));
    assert_eq!(second.packet_type, PacketType::DataFragment);
    assert_eq!(manager.next_packet_id, PacketId(2));
}

#[test]
fn single_message_encoding() {
    let with_id = SingleData::new(Some(MessageId(0x0102)), vec![9u8; 3]);
    let mut buf = Vec::new();
    with_id.to_bytes(&mut buf).unwrap();
    assert_eq!(buf, vec![1u8, 1, 2, 3, 9, 9, 9]);
    assert_eq!(with_id.len(), 7);
    let without_id = SingleData::new(None, vec![9u8; 64]);
    let mut buf = Vec::new();
    without_id.to_bytes(&mut buf).unwrap();
    assert_eq!(&buf[..3], &[0u8, 0x40, 0x40]);
    assert_eq!(buf.len(), 67);
    assert_eq!(without_id.len(), 67);
    assert!(SingleData::new(None, vec![0u8; FRAGMENT_SIZE]).is_wf());
    assert!(!SingleData::new(None, vec![0u8; FRAGMENT_SIZE + 1]).is_wf());
}

#[test]
fn fragment_encoding() {
    let fragment = FragmentData {
        message_id: MessageId(0x0a0b),
        fragment_id: 2,
        num_fragments: 5,
        bytes: vec![7u8; 2],
    };
    let mut buf = vec![0xeeu8];
    fragment.to_bytes(&mut buf).unwrap();
    assert_eq!(buf, vec![0xeeu8, 0x0a, 0x0b, 2, 5, 2, 7, 7]);
    assert_eq!(fragment.len(), 7);
    assert!(!fragment.is_last_fragment());
    assert!(fragment.is_wf());
    let last = FragmentData { fragment_id: 4, ..fragment.clone() };
    assert!(last.is_last_fragment());
    let wrong = FragmentData { fragment_id: 5, ..fragment };
    assert!(!wrong.is_wf());
}
