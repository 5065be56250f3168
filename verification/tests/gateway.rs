use gateway_dot::block::{BlockAnnounce, BlockState, Header};
use gateway_dot::gateway::bridge::{Backoff, Bridge, BridgeAction, BridgeEvent};
use gateway_dot::gateway::requester::{
    request_for, request_for_hash, Requester, RequesterAction, RequesterEvent,
};
use gateway_dot::gateway::substream::{
    build_ls_reply, read_announce_frame, read_protocol_name, Output, Session, BUFFER_SIZE,
};
use gateway_dot::scale::CodecError;
use gateway_dot::schema::{BlockRequest, FromBlock};
use parity_scale_codec::Encode;
use sp_runtime::traits::Header as _;

#[test]
fn waits_double_up_to_a_limit() {
    let mut backoff = Backoff::new();
    let waits: Vec<u64> = (0..9).map(|_| backoff.run()).collect();
    assert_eq!(waits, vec![1, 2, 4, 8, 16, 32, 64, 64, 64]);
}

#[test]
fn messages_are_written_behind_their_length() {
    let mut bridge = Bridge::new();
    assert!(matches!(bridge.start(), BridgeAction::Connect));
    assert!(bridge.expects(&BridgeEvent::Connected(true)));
    assert!(!bridge.expects(&BridgeEvent::Waited));
    assert!(matches!(bridge.step(BridgeEvent::Connected(true)), BridgeAction::Receive));
    let action = bridge.step(BridgeEvent::Message(vec![5; 300]));
    assert!(matches!(action, BridgeAction::WriteLength(300)));
    match bridge.step(BridgeEvent::Written(true)) {
        BridgeAction::WriteBody(body) => assert_eq!(body, vec![5; 300]),
        _ => panic!("no body"),
    }
    assert!(matches!(bridge.step(BridgeEvent::Written(true)), BridgeAction::Receive));
}

#[test]
fn lost_connections_are_tried_again() {
    let mut bridge = Bridge::new();
    assert!(matches!(bridge.step(BridgeEvent::Connected(false)), BridgeAction::Wait(1)));
    assert!(matches!(bridge.step(BridgeEvent::Waited), BridgeAction::Connect));
    assert!(matches!(bridge.step(BridgeEvent::Connected(true)), BridgeAction::Receive));
    bridge.step(BridgeEvent::Message(vec![1]));
    assert!(matches!(bridge.step(BridgeEvent::Written(false)), BridgeAction::Wait(2)));
    bridge.step(BridgeEvent::Waited);
    bridge.step(BridgeEvent::Connected(true));
    bridge.step(BridgeEvent::Message(vec![1]));
    bridge.step(BridgeEvent::Written(true));
    assert!(matches!(bridge.step(BridgeEvent::Written(false)), BridgeAction::Wait(4)));
    bridge.step(BridgeEvent::Waited);
    assert!(matches!(bridge.step(BridgeEvent::Connected(true)), BridgeAction::Receive));
}

#[test]
fn success_does_not_shorten_the_waits() {
    let mut bridge = Bridge::new();
    let mut waits = vec![];
    for _ in 0..8 {
        bridge.step(BridgeEvent::Connected(true));
        bridge.step(BridgeEvent::Message(vec![1]));
        bridge.step(BridgeEvent::Written(true));
        bridge.step(BridgeEvent::Written(true));
        bridge.step(BridgeEvent::Message(vec![2]));
        match bridge.step(BridgeEvent::Written(false)) {
            BridgeAction::Wait(wait) => waits.push(wait),
            _ => panic!("no wait"),
        }
        bridge.step(BridgeEvent::Waited);
    }
    assert_eq!(waits, vec![1, 2, 4, 8, 16, 32, 64, 64]);
}

#[test]
fn lost_messages_are_not_written_again() {
    let mut bridge = Bridge::new();
    bridge.step(BridgeEvent::Connected(true));
    bridge.step(BridgeEvent::Message(vec![1]));
    bridge.step(BridgeEvent::Written(false));
    bridge.step(BridgeEvent::Waited);
    assert!(matches!(bridge.step(BridgeEvent::Connected(true)), BridgeAction::Receive));
    assert!(matches!(
        bridge.step(BridgeEvent::Message(vec![2, 3])),
        BridgeAction::WriteLength(2)
    ));
    match bridge.step(BridgeEvent::Written(true)) {
        BridgeAction::WriteBody(body) => assert_eq!(body, vec![2, 3]),
        _ => panic!("no body"),
    }
}

fn opening(name: &str) -> Vec<u8> {
    let mut bytes = b"\x13/multistream/1.0.0\n".to_vec();
    bytes.push(name.len() as u8 + 1);
    bytes.extend_from_slice(name.as_bytes());
    bytes.push(b'\n');
    bytes
}

fn opened(name: &str) -> (Session, Vec<Output>) {
    let mut session = Session::new();
    assert_eq!(session.room(), Some(BUFFER_SIZE));
    let data = opening(name);
    assert!(session.accepts(&data));
    let outputs = session.on_read(&data);
    (session, outputs)
}

fn written(outputs: &[Output]) -> Vec<Vec<u8>> {
    outputs
        .iter()
        .map(|o| match o {
            Output::Write(bytes) => bytes.clone(),
            _ => panic!("not written"),
        })
        .collect()
}

#[test]
fn protocols_are_named_behind_the_greeting() {
    assert_eq!(read_protocol_name(&opening("/dot/sync/2")), Some("/dot/sync/2"));
    assert_eq!(read_protocol_name(&opening("")), Some(""));
    assert_eq!(read_protocol_name(&[0; 40]), None);
    assert_eq!(read_protocol_name(&[1; 20]), None);
    let mut cut = opening("/dot/sync/2");
    cut.truncate(30);
    assert_eq!(read_protocol_name(&cut), None);
    let mut garbled = opening("/dot/sync/2");
    garbled[25] = 0xff;
    assert_eq!(read_protocol_name(&garbled), None);
    let session = Session::new();
    assert!(!session.accepts(&[]));
    assert!(!session.accepts(&garbled));
}

#[test]
fn pings_are_sent_back() {
    let (mut session, outputs) = opened("/ipfs/ping/1.0.0");
    assert_eq!(written(&outputs), vec![opening("/ipfs/ping/1.0.0")]);
    assert_eq!(written(&session.on_read(&[7; 32])), vec![vec![7; 32]]);
    assert_eq!(written(&session.on_read(&[8; 4])), vec![vec![8; 4]]);
    assert!(session.on_read(&[]).is_empty());
    assert_eq!(session.room(), None);
    assert!(session.on_read(&[1]).is_empty());
}

#[test]
fn protocols_are_listed() {
    let mut expected = vec![88, 4];
    for name in [
        "/ipfs/ping/1.0.0\n",
        "/dot/block-announces/1\n",
        "/dot/transactions/1\n",
        "/paritytech/grandpa/1\n",
    ] {
        expected.push(name.len() as u8);
        expected.extend_from_slice(name.as_bytes());
    }
    expected.push(b'\n');
    assert_eq!(build_ls_reply(), expected);
    let (mut session, outputs) = opened("ls");
    assert_eq!(written(&outputs), vec![expected.clone()]);
    assert_eq!(written(&session.on_read(&[1])), vec![expected]);
    assert!(session.on_read(&[]).is_empty());
    assert_eq!(session.room(), None);
}

#[test]
fn notifications_are_greeted_and_ignored() {
    for name in ["/dot/transactions/1", "/paritytech/grandpa/1"] {
        let (mut session, outputs) = opened(name);
        assert_eq!(written(&outputs), vec![opening(name)]);
        assert_eq!(written(&session.on_read(&[1, 4])), vec![vec![1, 4]]);
        assert!(session.on_read(&[2, 3]).is_empty());
        assert!(session.on_read(&[]).is_empty());
        assert_eq!(session.room(), None);
    }
}

#[test]
fn other_protocols_are_refused() {
    let (mut session, outputs) = opened("/dot/kad");
    assert_eq!(
        written(&outputs),
        vec![b"\x13/multistream/1.0.0\n".to_vec(), b"\x03na\n".to_vec()]
    );
    assert!(session.on_read(&[1, 2]).is_empty());
    assert!(session.on_read(&[]).is_empty());
    assert_eq!(session.room(), None);
    let mut greeting = opening("/dot/kad");
    greeting[0] = 255;
    assert!(!Session::new().accepts(&greeting));
    let mut greeting = opening("ls");
    greeting[0] = 255;
    assert!(Session::new().accepts(&greeting));
}

fn chain_header(number: u32) -> sp_runtime::generic::Header<u32, sp_runtime::traits::BlakeTwo256> {
    sp_runtime::generic::Header::new(
        number,
        [1u8; 32].into(),
        [2u8; 32].into(),
        [3u8; 32].into(),
        Default::default(),
    )
}

fn announce(number: u32) -> BlockAnnounce {
    let header = Header::decode(&chain_header(number).encode()).unwrap().0;
    BlockAnnounce { header, state: Some(BlockState::Best), data: Some(vec![]) }
}

fn announcing() -> Session {
    let (mut session, outputs) = opened("/dot/block-announces/1");
    assert_eq!(written(&outputs), vec![opening("/dot/block-announces/1")]);
    let outputs = session.on_read(&[3, 10, 11, 12, 99]);
    assert_eq!(outputs.len(), 2);
    assert_eq!(written(&outputs[..1]), vec![vec![3, 10, 11, 12]]);
    assert!(matches!(outputs[1], Output::SpawnBlockRequester));
    session
}

#[test]
fn split_handshakes_are_put_together() {
    let (mut session, _) = opened("/dot/block-announces/1");
    assert!(session.on_read(&[3, 10]).is_empty());
    assert_eq!(session.room(), Some(BUFFER_SIZE - 2));
    assert!(session.on_read(&[]).is_empty());
    assert!(session.on_read(&[11]).is_empty());
    let outputs = session.on_read(&[12]);
    assert_eq!(written(&outputs[..1]), vec![vec![3, 10, 11, 12]]);
    assert!(matches!(outputs[1], Output::SpawnBlockRequester));
    assert_eq!(session.room(), Some(BUFFER_SIZE));
}

#[test]
fn announcements_are_forwarded_and_read() {
    let mut session = announcing();
    let mut bytes = vec![];
    announce(77).encode_to(&mut bytes);
    assert!(bytes.len() <= 128);
    let mut data = vec![bytes.len() as u8];
    data.extend_from_slice(&bytes);
    let outputs = session.on_read(&data);
    assert!(matches!(&outputs[0], Output::Forward(sent) if sent == &data));
    assert!(matches!(&outputs[1], Output::Write(bytes) if bytes == &[0]));
    assert!(matches!(outputs[2], Output::DecodeAnnounce));
    assert!(session.holds_announce());
    let read = session.decode_announce().unwrap();
    assert_eq!(read.header.number(), 77);
    assert_eq!(read.state, Some(BlockState::Best));
    assert_eq!(read.data, Some(vec![]));
    let outputs = session.on_read(&[1, 9]);
    assert_eq!(outputs.len(), 3);
    assert!(matches!(session.decode_announce(), Err(CodecError::Malformed)));
    assert!(session.on_read(&[]).is_empty());
    assert_eq!(session.room(), None);
}

#[test]
fn lengths_of_announcements_are_read_byte_by_byte() {
    assert_eq!(read_announce_frame(&[2, 7, 8, 9]), Some(&[7u8, 8][..]));
    assert_eq!(read_announce_frame(&[0, 7]), Some(&[][..]));
    assert_eq!(read_announce_frame(&[128, 7]), None);
    assert_eq!(read_announce_frame(&[]), None);
    assert_eq!(read_announce_frame(&[200]), None);
    let mut long = vec![0; 20000];
    long[0] = 129;
    long[1] = 5;
    assert_eq!(read_announce_frame(&long).map(|a| a.len()), Some(129 * 128 + 5));
    assert_eq!(read_announce_frame(&long[..16518]), None);
    assert_eq!(read_announce_frame(&long[..16519]).map(|a| a.len()), Some(16517));
    assert_eq!(read_announce_frame(&[255; 100]), None);
}

#[test]
fn announced_blocks_are_requested() {
    let mut requester = Requester::new();
    assert!(matches!(requester.start(), RequesterAction::Open));
    let write = |action: RequesterAction| match action {
        RequesterAction::Write(bytes) => bytes,
        _ => panic!("nothing is written"),
    };
    let greeting = write(requester.step(RequesterEvent::Opened));
    assert_eq!(greeting, b"\x13/multistream/1.0.0\n".to_vec());
    let naming = write(requester.step(RequesterEvent::Written));
    assert_eq!(naming, b"\x0c/dot/sync/2\n".to_vec());
    assert!(matches!(requester.step(RequesterEvent::Written), RequesterAction::Read(1000)));
    let answer = opening("/dot/sync/2");
    assert_eq!(answer.len(), 33);
    assert!(!requester.expects(&RequesterEvent::Read(answer[..32].to_vec())));
    assert!(!requester.expects(&RequesterEvent::Read(vec![0; 33])));
    assert!(!requester.expects(&RequesterEvent::Written));
    let event = RequesterEvent::Read(answer);
    assert!(requester.expects(&event));
    assert!(matches!(requester.step(event), RequesterAction::Receive));
    let length = write(requester.step(RequesterEvent::Announced(announce(4))));
    assert_eq!(length, vec![76]);
    let body = write(requester.step(RequesterEvent::Written));
    assert_eq!(body.len(), 76);
    let request = BlockRequest::decode(&body).unwrap();
    let hash = chain_header(4).hash().0.to_vec();
    assert_eq!(request.fields, 0x1f00_0000);
    assert!(matches!(request.from_block, Some(FromBlock::Hash(ref h)) if h == &hash));
    assert_eq!(request.to_block, hash);
    assert_eq!(request.direction, 0);
    assert_eq!(request.max_blocks, 1);
    assert!(matches!(requester.step(RequesterEvent::Written), RequesterAction::Read(76)));
    let event = RequesterEvent::Read(vec![]);
    assert!(requester.expects(&event));
    assert!(matches!(requester.step(event), RequesterAction::Open));
    let hash = chain_header(4).hash().0;
    assert_eq!(request_for(&announce(4)).encode(), request_for_hash(&hash).encode());
}
