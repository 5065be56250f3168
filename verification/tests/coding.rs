use gateway_dot::block::Header;
use gateway_dot::protocol::net_protocol::{
    BlockAttributes, BlockData, BlockHash, BlockRequest, Direction, Extrinsic, FromBlock,
};
use gateway_dot::scale::CodecError;
use parity_scale_codec::Encode;
use sp_runtime::traits::Header as _;

fn chain_header() -> sp_runtime::generic::Header<u32, sp_runtime::traits::BlakeTwo256> {
    sp_runtime::generic::Header::new(
        70000,
        Default::default(),
        Default::default(),
        Default::default(),
        Default::default(),
    )
}

fn header() -> Header {
    Header::decode(&chain_header().encode()).unwrap().0
}

type Block = BlockData<Header, BlockHash, Extrinsic>;

#[test]
fn directions_have_their_bytes() {
    let mut bytes = vec![];
    Direction::Ascending.encode_to(&mut bytes);
    Direction::Descending.encode_to(&mut bytes);
    assert_eq!(bytes, vec![0, 1]);
    assert_eq!(Direction::decode(&[0, 7]), Ok((Direction::Ascending, &[7][..])));
    assert_eq!(Direction::decode(&[1]), Ok((Direction::Descending, &[][..])));
    assert_eq!(Direction::decode(&[2]), Err(CodecError::NoVariant));
    assert_eq!(Direction::decode(&[]), Err(CodecError::Malformed));
}

#[test]
fn starts_of_ranges_are_read_back() {
    let hash: FromBlock<BlockHash, u32> = FromBlock::Hash([6; 32]);
    let mut bytes = vec![];
    hash.encode_to(&mut bytes);
    assert_eq!(bytes, (0u8, [6u8; 32]).encode());
    bytes.push(5);
    assert_eq!(FromBlock::decode(&bytes), Ok((hash, &[5][..])));
    let number: FromBlock<BlockHash, u32> = FromBlock::Number(0x0102_0304);
    let mut bytes = vec![];
    number.encode_to(&mut bytes);
    assert_eq!(bytes, vec![1, 4, 3, 2, 1]);
    assert_eq!(FromBlock::decode(&bytes), Ok((number, &[][..])));
    assert_eq!(FromBlock::decode(&bytes[..4]), Err(CodecError::Malformed));
    assert_eq!(FromBlock::decode(&[0; 32]), Err(CodecError::Malformed));
    assert_eq!(FromBlock::decode(&[]), Err(CodecError::Malformed));
    assert_eq!(FromBlock::decode(&[2; 40]), Err(CodecError::NoVariant));
}

fn request(to: Option<BlockHash>, max: Option<u32>) -> BlockRequest {
    BlockRequest {
        id: 0x0102_0304_0506_0708,
        fields: BlockAttributes::from_bits(19).unwrap(),
        from: FromBlock::Number(258),
        to,
        direction: Direction::Descending,
        max,
    }
}

#[test]
fn requests_are_coded_field_by_field() {
    let mut bytes = vec![];
    request(Some([9; 32]), Some(3)).encode_to(&mut bytes);
    let expected =
        (0x0102_0304_0506_0708u64, 19u8, (1u8, 258u32), Some([9u8; 32]), 1u8, Some(3u32)).encode();
    assert_eq!(bytes, expected);
    let mut bytes = vec![];
    request(None, None).encode_to(&mut bytes);
    assert_eq!(bytes, vec![8, 7, 6, 5, 4, 3, 2, 1, 19, 1, 2, 1, 0, 0, 0, 1, 0]);
}

#[test]
fn coded_requests_are_read_back() {
    for sent in [request(Some([9; 32]), Some(3)), request(None, Some(4)), request(None, None)] {
        let mut bytes = vec![];
        sent.encode_to(&mut bytes);
        bytes.extend_from_slice(&[7, 7]);
        let (read, rest) = BlockRequest::decode(&bytes).unwrap();
        assert_eq!(read, sent);
        assert_eq!(rest, &[7, 7]);
        for length in 0..bytes.len() - 2 {
            assert_eq!(BlockRequest::decode(&bytes[..length]), Err(CodecError::Malformed));
        }
    }
}

#[test]
fn malformed_coded_requests_are_refused() {
    let mut bytes = vec![];
    request(None, None).encode_to(&mut bytes);
    for (place, value) in [(8usize, 32u8), (9, 2), (14, 2), (15, 2), (16, 2)] {
        let mut wrong = bytes.clone();
        wrong[place] = value;
        assert_eq!(BlockRequest::decode(&wrong), Err(CodecError::Malformed), "{}", place);
    }
}

fn full_block() -> Block {
    BlockData {
        hash: [3; 32],
        header: Some(header()),
        body: Some(vec![vec![1, 2], vec![], vec![5; 70]]),
        receipt: Some(vec![8]),
        message_queue: None,
        justification: Some(vec![]),
    }
}

#[test]
fn blocks_are_coded_field_by_field() {
    let mut bytes = vec![];
    full_block().encode_to(&mut bytes);
    let expected = (
        [3u8; 32],
        Some(chain_header()),
        Some(vec![vec![1u8, 2], vec![], vec![5; 70]]),
        Some(vec![8u8]),
        None::<Vec<u8>>,
        Some(Vec::<u8>::new()),
    )
        .encode();
    assert_eq!(bytes, expected);
}

#[test]
fn coded_blocks_are_read_back() {
    let mut bytes = vec![];
    full_block().encode_to(&mut bytes);
    let length = bytes.len();
    bytes.push(6);
    let (read, rest) = Block::decode(&bytes).unwrap();
    assert_eq!(rest, &[6]);
    assert_eq!(read.hash, [3; 32]);
    assert_eq!(read.header.unwrap().number(), 70000);
    assert_eq!(read.body, full_block().body);
    assert_eq!(read.receipt, Some(vec![8]));
    assert_eq!(read.message_queue, None);
    assert_eq!(read.justification, Some(vec![]));
    for cut in 0..length {
        assert!(matches!(Block::decode(&bytes[..cut]), Err(CodecError::Malformed)), "{}", cut);
    }
    let mut wrong = bytes.clone();
    wrong[32] = 2;
    assert!(matches!(Block::decode(&wrong), Err(CodecError::Malformed)));
}
