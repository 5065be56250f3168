use gateway_dot::protocol::net_protocol::{
    build_protobuf_block_request, BlockAttributes, Direction, FromBlock, PolkadotInProtocol,
    PolkadotOutProtocol, PolkadotProtocolEvent, BODY, HEADER, JUSTIFICATION, MAX_REQUEST_SIZE,
    MAX_RESPONSE_SIZE, MESSAGE_QUEUE, RECEIPT, BlockRequest,
};
use gateway_dot::scale::CodecError;
use gateway_dot::schema;
use gateway_dot::time::Instant;
use gateway_dot::wire::Malformed;
use parity_scale_codec::Encode;

#[test]
fn attributes_stand_in_the_first_byte_of_the_word() {
    assert_eq!(BlockAttributes::all().to_be_u32(), 0x1f00_0000);
    let body = BlockAttributes::from_bits(BODY).unwrap();
    assert_eq!(body.to_be_u32(), 0x0200_0000);
    assert_eq!(BlockAttributes::from_be_u32(0x0200_0000).unwrap(), body);
    assert_eq!(BlockAttributes::from_be_u32(0x02ff_ffff).unwrap(), body);
    assert_eq!(
        BlockAttributes::from_be_u32(0x2000_0000),
        Err(CodecError::InvalidBlockAttributes)
    );
}

#[test]
fn attributes_are_five_bits() {
    assert_eq!(HEADER | BODY | RECEIPT | MESSAGE_QUEUE | JUSTIFICATION, 31);
    assert_eq!(BlockAttributes::all().bits(), 31);
    assert!(BlockAttributes::from_bits(32).is_none());
    let both = BlockAttributes::from_bits(HEADER | BODY).unwrap();
    assert!(both.contains(BODY));
    assert!(!both.contains(RECEIPT));
    assert!(!both.contains(BODY | RECEIPT));
}

#[test]
fn attributes_are_joined() {
    let header = BlockAttributes::from_bits(HEADER).unwrap();
    let others = BlockAttributes::from_bits(BODY | JUSTIFICATION).unwrap();
    assert_eq!(header.union(others).bits(), HEADER | BODY | JUSTIFICATION);
    assert_eq!(others.union(others), others);
    assert_eq!(header.union(BlockAttributes::all()), BlockAttributes::all());
}

#[test]
fn attributes_are_read_back_from_a_byte() {
    let mut bytes = vec![];
    BlockAttributes::from_bits(5).unwrap().encode_to(&mut bytes);
    assert_eq!(bytes, vec![5]);
    bytes.push(6);
    let (read, rest) = BlockAttributes::decode(&bytes);
    assert_eq!(read.unwrap().bits(), 5);
    assert_eq!(rest, &[6]);
    let (read, rest) = BlockAttributes::decode(&[32, 1]);
    assert_eq!(read, Err(CodecError::InvalidBytes));
    assert_eq!(rest, &[1]);
    let (read, _) = BlockAttributes::decode(&[]);
    assert_eq!(read, Err(CodecError::Malformed));
}

#[test]
fn protocols_have_their_names() {
    let incoming: PolkadotInProtocol<()> = PolkadotInProtocol::new();
    assert_eq!(incoming.protocol_info(), b"/dot/block-announces/1".to_vec());
    let outgoing = PolkadotOutProtocol::new(vec![1], ask(None));
    assert_eq!(outgoing.protocol_info(), b"/dot/sync/2".to_vec());
    assert_eq!(outgoing.block_protobuf_request, vec![1]);
    assert_eq!(MAX_REQUEST_SIZE, 1024 * 1024);
    assert_eq!(MAX_RESPONSE_SIZE, 16 * 1024 * 1024);
}

fn ask(max: Option<u32>) -> BlockRequest {
    BlockRequest {
        id: 4,
        fields: BlockAttributes::all(),
        from: FromBlock::Number(0x0102_0304),
        to: Some([8; 32]),
        direction: Direction::Descending,
        max,
    }
}

#[test]
fn requests_become_messages() {
    let request = ask(Some(16));
    let message = request.to_protobuf();
    assert_eq!(message.fields, 0x1f00_0000);
    assert!(matches!(
        message.from_block,
        Some(schema::FromBlock::Number(ref n)) if n == &[4, 3, 2, 1]
    ));
    assert_eq!(message.to_block, vec![8; 32]);
    assert_eq!(message.direction, 1);
    assert_eq!(message.max_blocks, 16);

    let message = build_protobuf_block_request(
        BlockAttributes::from_bits(HEADER).unwrap(),
        FromBlock::Hash(vec![3; 32]),
        None,
        Direction::Ascending,
        None,
    );
    assert_eq!(message.fields, 0x0100_0000);
    assert!(matches!(
        message.from_block,
        Some(schema::FromBlock::Hash(ref h)) if h == &[3; 32]
    ));
    assert!(message.to_block.is_empty());
    assert_eq!(message.direction, 0);
    assert_eq!(message.max_blocks, 0);
}

#[test]
fn incoming_requests_are_taken_up() {
    let incoming: PolkadotInProtocol<()> = PolkadotInProtocol::new();
    let event = incoming.upgrade_inbound(&[0x30, 0x05], "socket", Instant { nanos: 3 });
    match event {
        Ok(PolkadotProtocolEvent::Request(request, socket, start)) => {
            assert_eq!(request.max_blocks, 5);
            assert_eq!(socket, "socket");
            assert_eq!(start, Instant { nanos: 3 });
        }
        _ => panic!("no request"),
    }
    let incoming: PolkadotInProtocol<()> = PolkadotInProtocol::new();
    let event = incoming.upgrade_inbound(&[0x30], "socket", Instant { nanos: 3 });
    assert!(matches!(event, Err(Malformed)));
}

#[test]
fn responses_are_taken_up() {
    let outgoing = PolkadotOutProtocol::new(vec![], ask(None));
    let event: Result<PolkadotProtocolEvent<()>, Malformed> =
        outgoing.upgrade_outbound(&[0x0a, 0x00]);
    match event {
        Ok(PolkadotProtocolEvent::Response(request, response)) => {
            assert_eq!(request.id, 4);
            assert_eq!(response.blocks.len(), 1);
        }
        _ => panic!("no response"),
    }
    let outgoing = PolkadotOutProtocol::new(vec![], ask(None));
    let event: Result<PolkadotProtocolEvent<()>, Malformed> = outgoing.upgrade_outbound(&[0x0a]);
    assert!(matches!(event, Err(Malformed)));
}

#[test]
fn messages_take_hashes_of_any_length() {
    let message = build_protobuf_block_request(
        BlockAttributes::from_bits(HEADER | BODY).unwrap(),
        FromBlock::Number(5u32.encode()),
        Some([7u8, 9u8].encode()),
        Direction::Descending,
        None,
    );
    assert_eq!(message.fields, 0x0300_0000);
    assert!(matches!(
        message.from_block,
        Some(schema::FromBlock::Number(ref n)) if n == &[5, 0, 0, 0]
    ));
    assert_eq!(message.to_block, vec![7, 9]);
    assert_eq!(message.direction, 1);
    assert_eq!(message.max_blocks, 0);
}
