use gateway_dot::schema::{BlockData, BlockRequest, BlockResponse, FromBlock};
use gateway_dot::wire::Malformed;

fn request(from_block: Option<FromBlock>) -> BlockRequest {
    BlockRequest {
        fields: 0x1f00_0000,
        from_block,
        to_block: vec![9; 32],
        direction: 0,
        max_blocks: 1,
    }
}

#[test]
fn request_bytes_are_those_of_the_wire_format() {
    let bytes = request(Some(FromBlock::Hash(vec![7; 32]))).encode();
    let mut expected = vec![0x08, 0x80, 0x80, 0x80, 0xf8, 0x01];
    expected.extend_from_slice(&[0x12, 0x20]);
    expected.extend_from_slice(&[7; 32]);
    expected.extend_from_slice(&[0x22, 0x20]);
    expected.extend_from_slice(&[9; 32]);
    expected.extend_from_slice(&[0x30, 0x01]);
    assert_eq!(bytes, expected);
}

#[test]
fn empty_request_has_no_bytes() {
    let empty = BlockRequest {
        fields: 0,
        from_block: None,
        to_block: vec![],
        direction: 0,
        max_blocks: 0,
    };
    assert_eq!(empty.encode(), Vec::<u8>::new());
}

#[test]
fn request_with_a_number_is_read_back() {
    let sent = BlockRequest {
        fields: 3,
        from_block: Some(FromBlock::Number(vec![1, 2, 3, 4])),
        to_block: vec![],
        direction: -1,
        max_blocks: u32::MAX,
    };
    let bytes = sent.encode();
    assert_eq!(&bytes[8..10], &[0x28, 0xff]);
    let read = BlockRequest::decode(&bytes).unwrap();
    assert_eq!(read.fields, 3);
    assert!(matches!(read.from_block, Some(FromBlock::Number(ref n)) if n == &[1, 2, 3, 4]));
    assert!(read.to_block.is_empty());
    assert_eq!(read.direction, -1);
    assert_eq!(read.max_blocks, u32::MAX);
}

#[test]
fn fields_of_other_tags_are_passed_over() {
    let mut bytes = vec![0x78, 0x05];
    bytes.extend_from_slice(&[0x79, 1, 2, 3, 4, 5, 6, 7, 8]);
    bytes.extend_from_slice(&[0x7a, 0x02, 0xaa, 0xbb]);
    bytes.extend_from_slice(&[0x7d, 1, 2, 3, 4]);
    bytes.extend_from_slice(&[0x7b, 0x08, 0x01, 0x7c]);
    bytes.extend_from_slice(&[0x30, 0x07]);
    let read = BlockRequest::decode(&bytes).unwrap();
    assert_eq!(read.max_blocks, 7);
    assert_eq!(read.fields, 0);
}

#[test]
fn later_fields_replace_earlier_ones() {
    let bytes = [0x08, 0x01, 0x12, 0x01, 0x05, 0x08, 0x02, 0x1a, 0x01, 0x06];
    let read = BlockRequest::decode(&bytes).unwrap();
    assert_eq!(read.fields, 2);
    assert!(matches!(read.from_block, Some(FromBlock::Number(ref n)) if n == &[6]));
}

#[test]
fn malformed_requests_are_refused() {
    let truncated = BlockRequest::decode(&[0x12, 0x20, 1, 2]);
    assert!(matches!(truncated, Err(Malformed)));
    let wrong_type = BlockRequest::decode(&[0x0a, 0x00]);
    assert!(matches!(wrong_type, Err(Malformed)));
    let no_tag = BlockRequest::decode(&[0x00, 0x00]);
    assert!(matches!(no_tag, Err(Malformed)));
    let endless = BlockRequest::decode(&[0xff; 11]);
    assert!(matches!(endless, Err(Malformed)));
    let open_group = BlockRequest::decode(&[0x7b, 0x08, 0x01]);
    assert!(matches!(open_group, Err(Malformed)));
}

fn block() -> BlockData {
    BlockData {
        hash: vec![1; 32],
        header: vec![2, 2],
        body: vec![vec![], vec![3, 4]],
        receipt: vec![5],
        message_queue: vec![6],
        justification: vec![],
        is_empty_justification: true,
    }
}

#[test]
fn response_is_read_back() {
    let bare = BlockData {
        hash: vec![],
        header: vec![],
        body: vec![],
        receipt: vec![],
        message_queue: vec![],
        justification: vec![8, 8],
        is_empty_justification: false,
    };
    let bytes = BlockResponse { blocks: vec![block(), bare] }.encode();
    let read = BlockResponse::decode(&bytes).unwrap();
    assert_eq!(read.blocks.len(), 2);
    assert_eq!(read.blocks[0].hash, vec![1; 32]);
    assert_eq!(read.blocks[0].header, vec![2, 2]);
    assert_eq!(read.blocks[0].body, vec![vec![], vec![3, 4]]);
    assert_eq!(read.blocks[0].receipt, vec![5]);
    assert_eq!(read.blocks[0].message_queue, vec![6]);
    assert!(read.blocks[0].is_empty_justification);
    assert_eq!(read.blocks[1].justification, vec![8, 8]);
    assert!(!read.blocks[1].is_empty_justification);
}

#[test]
fn response_bytes_are_those_of_the_wire_format() {
    let bytes = BlockResponse { blocks: vec![block()] }.encode();
    let mut expected = vec![0x0a, 52, 0x0a, 32];
    expected.extend_from_slice(&[1; 32]);
    expected.extend_from_slice(&[0x12, 2, 2, 2]);
    expected.extend_from_slice(&[0x1a, 0, 0x1a, 2, 3, 4]);
    expected.extend_from_slice(&[0x22, 1, 5, 0x2a, 1, 6, 0x38, 1]);
    assert_eq!(bytes, expected);
}

#[test]
fn malformed_responses_are_refused() {
    assert!(matches!(BlockResponse::decode(&[0x0a, 0x02, 0x0a]), Err(Malformed)));
    assert!(matches!(BlockResponse::decode(&[0x0a, 0x02, 0x08, 0x01]), Err(Malformed)));
    assert!(matches!(BlockResponse::decode(&[0x08, 0x01]), Err(Malformed)));
}

fn nested_groups(count: usize) -> Vec<u8> {
    let mut bytes = vec![0x43; count];
    bytes.extend(vec![0x44; count]);
    bytes
}

#[test]
fn groups_in_a_block_may_be_nested_one_level_less() {
    assert!(BlockRequest::decode(&nested_groups(100)).is_ok());
    assert!(BlockRequest::decode(&nested_groups(101)).is_err());
    assert!(BlockResponse::decode(&nested_groups(100)).is_ok());
    let within = |count: usize| {
        let group = nested_groups(count);
        let mut bytes = vec![0x0a];
        if group.len() >= 128 {
            bytes.push((group.len() % 128) as u8 | 128);
            bytes.push((group.len() / 128) as u8);
        } else {
            bytes.push(group.len() as u8);
        }
        bytes.extend(group);
        BlockResponse::decode(&bytes)
    };
    assert!(within(1).is_ok());
    assert!(within(99).is_ok());
    assert!(within(100).is_err());
}
