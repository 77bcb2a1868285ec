use packet_builder::error::SerializationError;
use packet_builder::header::{PacketHeader, PacketId, PacketType, Tick};
use packet_builder::message::{FragmentData, MessageId, SingleData};
use packet_builder::parse::parse_bytes;

#[test]
fn parse_reads_blocks() {
    let bytes = vec![0u8, 0, 7, 0, 3, 9, 2, 1, 0x0a, 0x0b, 2, 1, 2, 0, 1, 3, 0x40, 64, 1, 0, 0];
    let contents = parse_bytes(&bytes).unwrap();
    assert_eq!(
        contents.header,
        PacketHeader { packet_type: PacketType::Data, packet_id: PacketId(7), tick: Tick(3) }
    );
    assert_eq!(contents.fragment, None);
    assert_eq!(
        contents.blocks,
        vec![
            (
                9u16,
                vec![
                    SingleData::new(Some(MessageId(0x0a0b)), vec![1u8, 2]),
                    SingleData::new(None, vec![3u8]),
                ]
            ),
            (64u16, vec![SingleData::new(None, vec![])]),
        ]
    );
    assert_eq!(contents.get(9).unwrap(), vec![vec![1u8, 2], vec![3u8]]);
    assert_eq!(contents.get(64).unwrap(), vec![Vec::<u8>::new()]);
    assert_eq!(contents.get(10), None);
}

#[test]
fn parse_reads_a_fragment_and_blocks() {
    let bytes = vec![1u8, 0, 0, 0, 0, 5, 0, 7, 1, 2, 2, 4, 5, 5, 1, 0, 1, 9];
    let contents = parse_bytes(&bytes).unwrap();
    assert_eq!(
        contents.fragment,
        Some((
            5u16,
            FragmentData {
                message_id: MessageId(7),
                fragment_id: 1,
                num_fragments: 2,
                bytes: vec![4u8, 5],
            }
        ))
    );
    assert_eq!(contents.blocks, vec![(5u16, vec![SingleData::new(None, vec![9u8])])]);
    assert_eq!(contents.get(5).unwrap(), vec![vec![4u8, 5], vec![9u8]]);
}

#[test]
fn parse_reads_a_header_alone() {
    let contents = parse_bytes(&vec![0u8, 0xff, 0xff, 1, 0]).unwrap();
    assert_eq!(contents.header.packet_id, PacketId(u16::MAX));
    assert_eq!(contents.header.tick, Tick(256));
    assert_eq!(contents.blocks.len(), 0);
}

#[test]
fn parse_reads_long_channel_ids() {
    let bytes = vec![0u8, 0, 0, 0, 0, 0x80, 0, 0xff, 0xff, 1, 0, 0];
    let contents = parse_bytes(&bytes).unwrap();
    assert_eq!(contents.blocks[0].0, u16::MAX);
}

#[test]
fn parse_refuses_what_is_no_payload() {
    let cases: Vec<Vec<u8>> = vec![
        vec![],
        vec![0, 0, 0, 0],
        vec![2, 0, 0, 0, 0],
        vec![1, 0, 0, 0, 0],
        vec![1, 0, 0, 0, 0, 5, 0, 7, 1, 2, 3, 4, 5],
        vec![0, 0, 0, 0, 0, 9],
        vec![0, 0, 0, 0, 0, 9, 1],
        vec![0, 0, 0, 0, 0, 9, 1, 2, 0],
        vec![0, 0, 0, 0, 0, 9, 1, 1, 0],
        vec![0, 0, 0, 0, 0, 9, 1, 0, 2, 1],
        vec![0, 0, 0, 0, 0, 0x40],
        vec![0, 0, 0, 0, 0, 0x80, 1, 0, 0, 0],
    ];
    for bytes in cases {
        assert!(matches!(parse_bytes(&bytes), Err(SerializationError::InvalidPacket)));
    }
}
