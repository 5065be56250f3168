use gateway_dot::behaviour::polkadot::{
    assemble_block, decode_blocks, ioEvent, Injected, PolkadotAction, PolkadotBehaviour, PolkadotStep,
    RequestError, SendRequestOutcome,
};
use gateway_dot::peer::PeerId;
use gateway_dot::protocol::net_protocol::{
    BlockAttributes, BlockRequest, Direction, FromBlock, PolkadotProtocolEvent, BODY, HEADER,
};
use gateway_dot::scale::CodecError;
use gateway_dot::schema;
use gateway_dot::time::{Duration, Instant};
use parity_scale_codec::Encode;
use sp_runtime::traits::Header as _;

fn at(secs: u128) -> Instant {
    Instant { nanos: secs * 1_000_000_000 }
}

fn peer(n: u8) -> PeerId {
    let mut bytes = vec![0, 32];
    bytes.extend_from_slice(&[n; 32]);
    PeerId::from_bytes(bytes).unwrap()
}

fn ask(id: u64) -> BlockRequest {
    BlockRequest {
        id,
        fields: BlockAttributes::from_bits(HEADER | BODY).unwrap(),
        from: FromBlock::Hash([1; 32]),
        to: None,
        direction: Direction::Ascending,
        max: Some(1),
    }
}

fn connected() -> PolkadotBehaviour<u32> {
    let mut behaviour = PolkadotBehaviour::new("hello".to_string());
    behaviour.inject_connection_established(&peer(1), 10);
    behaviour.inject_connection_established(&peer(1), 11);
    behaviour
}

#[test]
fn requests_to_strangers_are_not_sent() {
    let mut behaviour = connected();
    let outcome = behaviour.send_request(&peer(2), ask(1), at(0));
    assert!(matches!(outcome, SendRequestOutcome::NotConnected));
    assert!(matches!(behaviour.poll(at(0)), PolkadotStep::PollOutgoing));
}

#[test]
fn requests_go_out_on_the_oldest_connection() {
    let mut behaviour = connected();
    let outcome = behaviour.send_request(&peer(1), ask(1), at(5));
    assert!(matches!(outcome, SendRequestOutcome::Sent));
    match behaviour.poll(at(5)) {
        PolkadotStep::Ready(PolkadotAction::NotifyHandler { peer_id, connection, event }) => {
            assert!(peer_id.same(&peer(1)));
            assert_eq!(connection, 10);
            assert_eq!(event.recv_request, ask(1));
            let sent = schema::BlockRequest::decode(&event.block_protobuf_request).unwrap();
            assert_eq!(sent.fields, 0x0300_0000);
            assert_eq!(sent.max_blocks, 1);
        }
        _ => panic!("nothing was sent"),
    }
    assert!(matches!(behaviour.poll(at(5)), PolkadotStep::PollOutgoing));
}

#[test]
fn requests_take_the_place_of_earlier_ones() {
    let mut behaviour = connected();
    let first = behaviour.send_request(&peer(1), ask(1), at(5));
    assert!(matches!(first, SendRequestOutcome::Sent));
    match behaviour.send_request(&peer(1), ask(2), at(8)) {
        SendRequestOutcome::Replaced { previous, request_duration } => {
            assert_eq!(previous.id, 1);
            assert_eq!(request_duration, Duration { nanos: 3_000_000_000 });
        }
        _ => panic!("not replaced"),
    }
}

#[test]
fn requests_time_out_after_forty_seconds_and_once() {
    let mut behaviour = connected();
    let outcome = behaviour.send_request(&peer(1), ask(7), at(100));
    assert!(matches!(outcome, SendRequestOutcome::Sent));
    assert!(matches!(behaviour.poll(at(100)), PolkadotStep::Ready(_)));
    assert!(matches!(behaviour.poll(at(139)), PolkadotStep::PollOutgoing));
    match behaviour.poll(at(141)) {
        PolkadotStep::Ready(PolkadotAction::GenerateEvent(ioEvent::RequestTimeout {
            peer: who,
            original_request,
            request_duration,
        })) => {
            assert!(who.same(&peer(1)));
            assert_eq!(original_request.id, 7);
            assert_eq!(request_duration, Duration { nanos: 41_000_000_000 });
        }
        _ => panic!("no timeout"),
    }
    assert!(matches!(behaviour.poll(at(200)), PolkadotStep::PollOutgoing));
}

#[test]
fn finished_answers_are_told() {
    let behaviour = connected();
    let time = Duration { nanos: 9 };
    match behaviour.poll_outgoing(Some((peer(3), time))) {
        PolkadotStep::Ready(PolkadotAction::GenerateEvent(ioEvent::AnsweredRequest {
            peer: who,
            total_handling_time,
        })) => {
            assert!(who.same(&peer(3)));
            assert_eq!(total_handling_time, time);
        }
        _ => panic!("nothing was told"),
    }
    assert!(matches!(behaviour.poll_outgoing(None), PolkadotStep::Pending));
    assert!(behaviour.addresses_of_peer(&peer(1)).is_empty());
}

fn incoming(from_block: Option<schema::FromBlock>) -> PolkadotProtocolEvent<&'static str> {
    let request = schema::BlockRequest {
        fields: 0,
        from_block,
        to_block: vec![],
        direction: 0,
        max_blocks: 0,
    };
    PolkadotProtocolEvent::Request(request, "socket", at(1))
}

#[test]
fn requests_are_answered_without_blocks() {
    let mut behaviour = connected();
    let event = incoming(Some(schema::FromBlock::Hash(vec![5; 33])));
    match behaviour.inject_event(peer(4), event) {
        Injected::Answer { peer: who, data, socket, handling_start } => {
            assert!(who.same(&peer(4)));
            assert!(data.is_empty());
            assert_eq!(socket, "socket");
            assert_eq!(handling_start, at(1));
        }
        _ => panic!("no answer"),
    }
    let event = incoming(Some(schema::FromBlock::Number(vec![5; 4])));
    assert!(matches!(behaviour.inject_event(peer(4), event), Injected::Answer { .. }));
}

#[test]
fn requests_without_a_start_are_not_answered() {
    let mut behaviour = connected();
    assert!(matches!(
        behaviour.inject_event(peer(4), incoming(None)),
        Injected::RequestFailed(RequestError::MissingFromBlock)
    ));
    let short = incoming(Some(schema::FromBlock::Hash(vec![5; 31])));
    assert!(matches!(
        behaviour.inject_event(peer(4), short),
        Injected::RequestFailed(RequestError::Codec(CodecError::Malformed))
    ));
    let short = incoming(Some(schema::FromBlock::Number(vec![5; 3])));
    assert!(matches!(
        behaviour.inject_event(peer(4), short),
        Injected::RequestFailed(RequestError::Codec(CodecError::Malformed))
    ));
}

fn header_bytes() -> Vec<u8> {
    sp_runtime::generic::Header::<u32, sp_runtime::traits::BlakeTwo256>::new(
        12,
        [1u8; 32].into(),
        [2u8; 32].into(),
        [3u8; 32].into(),
        Default::default(),
    )
    .encode()
}

fn received() -> schema::BlockData {
    schema::BlockData {
        hash: vec![6; 32],
        header: header_bytes(),
        body: vec![vec![8, 1, 2], vec![0]],
        receipt: vec![3],
        message_queue: vec![4],
        justification: vec![],
        is_empty_justification: true,
    }
}

#[test]
fn responses_are_read_and_told() {
    let mut behaviour = connected();
    let response = schema::BlockResponse { blocks: vec![received()] };
    let event: PolkadotProtocolEvent<()> = PolkadotProtocolEvent::Response(ask(21), response);
    assert!(matches!(behaviour.inject_event(peer(5), event), Injected::Queued));
    match behaviour.poll(at(0)) {
        PolkadotStep::Ready(PolkadotAction::GenerateEvent(ioEvent::Response {
            peer: who,
            original_request,
            response,
        })) => {
            assert!(who.same(&peer(5)));
            assert_eq!(original_request.id, 21);
            assert_eq!(response.id, 21);
            let block = &response.blocks[0];
            assert_eq!(block.hash, [6; 32]);
            assert_eq!(block.header.as_ref().unwrap().number(), 12);
            assert_eq!(block.body, Some(vec![vec![1, 2], vec![]]));
            assert_eq!(block.receipt, Some(vec![3]));
            assert_eq!(block.message_queue, Some(vec![4]));
            assert_eq!(block.justification, Some(vec![]));
        }
        _ => panic!("no response"),
    }
}

#[test]
fn parts_that_were_not_asked_for_are_left_out() {
    let mut block = received();
    block.header = vec![];
    block.message_queue = vec![];
    block.is_empty_justification = false;
    let response = schema::BlockResponse { blocks: vec![block] };
    let fields = BlockAttributes::from_bits(HEADER).unwrap();
    let blocks = decode_blocks(fields, &response).unwrap();
    assert!(blocks[0].header.is_none());
    assert!(blocks[0].body.is_none());
    assert!(blocks[0].receipt.is_none());
    assert!(blocks[0].message_queue.is_none());
    assert!(blocks[0].justification.is_none());
}

#[test]
fn responses_that_cannot_be_read_are_dropped_whole() {
    let all = BlockAttributes::all();
    let mut bad_hash = received();
    bad_hash.hash = vec![6; 31];
    let mut bad_header = received();
    bad_header.header = vec![1];
    let mut bad_body = received();
    bad_body.body = vec![vec![8, 1]];
    for bad in [bad_hash, bad_header, bad_body] {
        let response = schema::BlockResponse { blocks: vec![received(), bad] };
        assert!(matches!(decode_blocks(all, &response), Err(CodecError::Malformed)));
        let mut behaviour = connected();
        let event: PolkadotProtocolEvent<()> = PolkadotProtocolEvent::Response(ask(1), response);
        assert!(matches!(
            behaviour.inject_event(peer(5), event),
            Injected::ResponseFailed(CodecError::Malformed)
        ));
        assert!(matches!(behaviour.poll(at(0)), PolkadotStep::PollOutgoing));
    }
}

#[test]
fn blocks_are_assembled_from_their_parts() {
    let block = assemble_block(&received(), [2; 32], None, Some(vec![vec![1]]));
    assert_eq!(block.hash, [2; 32]);
    assert!(block.header.is_none());
    assert_eq!(block.body, Some(vec![vec![1]]));
    assert_eq!(block.receipt, Some(vec![3]));
    assert_eq!(block.justification, Some(vec![]));
    let mut justified = received();
    justified.justification = vec![9];
    justified.message_queue = vec![];
    let block = assemble_block(&justified, [2; 32], None, None);
    assert_eq!(block.justification, Some(vec![9]));
    assert_eq!(block.receipt, None);
}

#[test]
fn errors_have_their_texts() {
    assert_eq!(
        RequestError::MissingFromBlock.message(),
        "missing `BlockRequest::from_block` field"
    );
    assert_eq!(RequestError::Codec(CodecError::Malformed).message(), "malformed input");
    assert_eq!(CodecError::NoVariant.message(), "No variant");
    assert_eq!(CodecError::InvalidBytes.message(), "Invalid bytes");
    assert_eq!(CodecError::InvalidBlockAttributes.message(), "Invalid BlockAttributes");
}
