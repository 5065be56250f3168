use gateway_dot::block::{BlockAnnounce, BlockState, Header};
use gateway_dot::scale::CodecError;
use parity_scale_codec::Encode;
use sp_runtime::traits::Header as _;

type ChainHeader = sp_runtime::generic::Header<u32, sp_runtime::traits::BlakeTwo256>;

fn chain_header(number: u32) -> ChainHeader {
    ChainHeader::new(
        number,
        [1u8; 32].into(),
        [2u8; 32].into(),
        [3u8; 32].into(),
        Default::default(),
    )
}

fn header(number: u32) -> Header {
    Header::decode(&chain_header(number).encode()).unwrap().0
}

#[test]
fn header_has_the_number_and_the_hash_of_the_chain() {
    for number in [0u32, 63, 64, 16383, 16384, 0x3fff_ffff, 0x4000_0000, u32::MAX] {
        let original = chain_header(number);
        let mut bytes = original.encode();
        let length = bytes.len();
        bytes.push(77);
        let (read, rest) = Header::decode(&bytes).unwrap();
        assert_eq!(rest, &[77]);
        assert_eq!(read.number(), number);
        assert_eq!(read.hash(), original.hash().0);
        let mut written = vec![];
        read.encode_to(&mut written);
        assert_eq!(written, &bytes[..length]);
    }
}

#[test]
fn header_that_is_cut_short_is_refused() {
    let bytes = chain_header(5).encode();
    let cut = Header::decode(&bytes[..bytes.len() - 1]);
    assert!(matches!(cut, Err(CodecError::Malformed)));
    assert!(matches!(Header::decode(&[]), Err(CodecError::Malformed)));
}

#[test]
fn states_have_their_bytes() {
    let mut bytes = vec![];
    BlockState::Normal.encode_to(&mut bytes);
    BlockState::Best.encode_to(&mut bytes);
    assert_eq!(bytes, vec![0, 1]);
    let (first, rest) = BlockState::decode(&bytes);
    assert_eq!(first, Ok(BlockState::Normal));
    let (second, rest) = BlockState::decode(rest);
    assert_eq!(second, Ok(BlockState::Best));
    assert!(rest.is_empty());
}

#[test]
fn other_states_are_refused() {
    let (state, rest) = BlockState::decode(&[2, 9]);
    assert_eq!(state, Err(CodecError::NoVariant));
    assert_eq!(rest, &[9]);
    let (state, rest) = BlockState::decode(&[]);
    assert_eq!(state, Err(CodecError::Malformed));
    assert!(rest.is_empty());
}

fn sent_and_read(state: Option<BlockState>, data: Option<Vec<u8>>) -> BlockAnnounce {
    let announce = BlockAnnounce { header: header(7), state, data };
    let mut bytes = vec![];
    announce.encode_to(&mut bytes);
    BlockAnnounce::decode(&bytes).unwrap().0
}

#[test]
fn announcements_are_read_back() {
    for length in [0usize, 3, 63, 64, 300, 16384] {
        let read = sent_and_read(Some(BlockState::Best), Some(vec![4; length]));
        assert_eq!(read.header.number(), 7);
        assert_eq!(read.state, Some(BlockState::Best));
        assert_eq!(read.data, Some(vec![4; length]));
    }
    let read = sent_and_read(Some(BlockState::Normal), None);
    assert_eq!(read.state, Some(BlockState::Normal));
    assert_eq!(read.data, None);
    let read = sent_and_read(None, None);
    assert_eq!(read.state, None);
    assert_eq!(read.data, None);
}

#[test]
fn data_without_a_state_does_not_come_back() {
    let read = sent_and_read(None, Some(vec![4; 2]));
    assert_eq!(read.state, None);
    assert_eq!(read.data, Some(vec![4]));
    let read = sent_and_read(None, Some(vec![]));
    assert_eq!(read.state, Some(BlockState::Normal));
    assert_eq!(read.data, None);
}

#[test]
fn announcement_bytes_are_header_state_and_data() {
    let announce = BlockAnnounce {
        header: header(9),
        state: Some(BlockState::Best),
        data: Some(vec![5, 6]),
    };
    let mut bytes = vec![];
    announce.encode_to(&mut bytes);
    let mut expected = chain_header(9).encode();
    expected.extend_from_slice(&[1, 8, 5, 6]);
    assert_eq!(bytes, expected);
}

#[test]
fn announcement_without_a_header_is_refused() {
    assert!(matches!(BlockAnnounce::decode(&[1, 2, 3]), Err(CodecError::Malformed)));
}

#[test]
fn what_follows_a_header_is_state_and_data() {
    let (read, rest) = BlockAnnounce::behind_header(header(3), &[1, 12, 7, 8, 9, 5]);
    assert_eq!(rest, &[5]);
    assert_eq!(read.header.number(), 3);
    assert_eq!(read.state, Some(BlockState::Best));
    assert_eq!(read.data, Some(vec![7, 8, 9]));
    let (read, rest) = BlockAnnounce::behind_header(header(3), &[9, 4]);
    assert!(rest.is_empty());
    assert_eq!(read.state, None);
    assert_eq!(read.data, None);
}

#[test]
fn announcements_are_used_up() {
    let whole = |state, data| {
        let mut bytes = vec![];
        BlockAnnounce { header: header(7), state, data }.encode_to(&mut bytes);
        bytes
    };
    for bytes in [
        whole(Some(BlockState::Best), Some(vec![4; 300])),
        whole(Some(BlockState::Normal), None),
        whole(None, None),
    ] {
        let (_, rest) = BlockAnnounce::decode(&bytes).unwrap();
        assert!(rest.is_empty());
    }
    let mut longer = whole(Some(BlockState::Best), Some(vec![4; 3]));
    longer.extend_from_slice(&[8, 9]);
    let (read, rest) = BlockAnnounce::decode(&longer).unwrap();
    assert_eq!(read.data, Some(vec![4; 3]));
    assert_eq!(rest, &[8, 9]);
}
