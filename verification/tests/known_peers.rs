use gateway_dot::behaviour::polled::Polled;
use gateway_dot::behaviour::reconnect::{
    ioPingEvent, IdentifyEvent, IdentifyInfo, Part, PingBehaviour, PingReport, PingResult, PingStep,
};
use gateway_dot::peer::{ConnectedPoint, Multiaddr, PeerId};
use gateway_dot::time::{Duration, Instant};

fn at(secs: u128) -> Instant {
    Instant { nanos: secs * 1_000_000_000 }
}

fn peer(n: u8) -> PeerId {
    let mut bytes = vec![0, 32];
    bytes.extend_from_slice(&[n; 32]);
    PeerId::from_bytes(bytes).unwrap()
}

fn dial(n: u8) -> ConnectedPoint {
    ConnectedPoint::Dialer { address: Multiaddr::from_bytes(vec![4, 80, 1, 1, n]).unwrap() }
}

fn behaviour() -> PingBehaviour {
    let key = libp2p::identity::Keypair::generate_ed25519().public();
    PingBehaviour::new("gateway".to_string(), key)
}

fn info(agent: &str) -> IdentifyInfo {
    IdentifyInfo {
        public_key: vec![],
        protocol_version: "/substrate/1.0".to_string(),
        agent_version: agent.to_string(),
        listen_addrs: vec![],
        protocols: vec![],
        observed_addr: Multiaddr::from_bytes(vec![4, 80, 1, 1, 1]).unwrap(),
    }
}

type Step = PingStep<u8>;

fn ping(b: &mut PingBehaviour, n: u8, rtt: Duration) {
    let report = PingReport { peer: peer(n), result: PingResult::Ping { rtt } };
    let step: Step = b.poll_ping(Polled::Event(report));
    assert!(matches!(step, PingStep::PollPing));
}

fn identify(b: &mut PingBehaviour, n: u8, agent: &str) {
    let event = IdentifyEvent::Received { peer_id: peer(n), info: info(agent) };
    let step: Step = b.poll_identify(Polled::Event(event));
    match step {
        PingStep::Event(ioPingEvent::Identified { peer_id, info }) => {
            assert!(peer_id.same(&peer(n)));
            assert_eq!(info.agent_version, agent);
        }
        _ => panic!("not told"),
    }
}

#[test]
fn nothing_is_known_of_strangers() {
    let mut b = behaviour();
    assert!(b.node(&peer(1)).is_none());
    ping(&mut b, 1, Duration { nanos: 5 });
    identify(&mut b, 1, "polkadot");
    b.inject_connection_closed(&peer(1), &dial(1));
    b.inject_disconnected(&peer(1), at(0));
    assert!(b.node(&peer(1)).is_none());
    assert!(b.addresses_of_peer(&peer(1)).is_empty());
}

#[test]
fn pings_and_versions_are_kept() {
    let mut b = behaviour();
    b.inject_connection_established(&peer(1), &dial(1), at(0));
    b.inject_connection_established(&peer(2), &dial(2), at(0));
    let node = b.node(&peer(1)).unwrap();
    assert!(node.endpoint().same(&dial(1)));
    assert_eq!(node.client_version(), None);
    assert_eq!(node.latest_ping(), None);
    ping(&mut b, 1, Duration { nanos: 5 });
    identify(&mut b, 1, "polkadot");
    let node = b.node(&peer(1)).unwrap();
    assert_eq!(node.client_version(), Some("polkadot"));
    assert_eq!(node.latest_ping(), Some(Duration { nanos: 5 }));
    assert_eq!(b.node(&peer(2)).unwrap().latest_ping(), None);
}

#[test]
fn other_reports_change_nothing() {
    let mut b = behaviour();
    b.inject_connection_established(&peer(1), &dial(1), at(0));
    for result in [PingResult::Pong, PingResult::Failed] {
        let step: Step = b.poll_ping(Polled::Event(PingReport { peer: peer(1), result }));
        assert!(matches!(step, PingStep::PollPing));
    }
    for event in [
        IdentifyEvent::Sent { peer_id: peer(1) },
        IdentifyEvent::Failed { peer_id: peer(1) },
    ] {
        let step: Step = b.poll_identify(Polled::Event(event));
        assert!(matches!(step, PingStep::PollIdentify));
    }
    let node = b.node(&peer(1)).unwrap();
    assert_eq!(node.latest_ping(), None);
    assert_eq!(node.client_version(), None);
}

#[test]
fn parts_are_looked_at_in_turn() {
    let mut b = behaviour();
    let step: Step = b.poll_ping(Polled::Pending);
    assert!(matches!(step, PingStep::PollIdentify));
    let step: Step = b.poll_identify(Polled::Pending);
    assert!(matches!(step, PingStep::CollectGarbage));
    let step: Step = b.poll_ping(Polled::Forward(1));
    assert!(matches!(step, PingStep::Forward { part: Part::Ping, action: 1 }));
    let step: Step = b.poll_identify(Polled::Forward(2));
    assert!(matches!(step, PingStep::Forward { part: Part::Identify, action: 2 }));
}

#[test]
fn closed_connections_are_forgotten() {
    let mut b = behaviour();
    for n in [1, 2, 1, 3] {
        b.inject_connection_established(&peer(1), &dial(n), at(0));
    }
    assert!(b.node(&peer(1)).unwrap().endpoint().same(&dial(1)));
    b.inject_connection_closed(&peer(1), &dial(1));
    assert!(b.node(&peer(1)).unwrap().endpoint().same(&dial(2)));
    b.inject_connection_closed(&peer(1), &dial(9));
    b.inject_connection_closed(&peer(1), &dial(2));
    assert!(b.node(&peer(1)).unwrap().endpoint().same(&dial(3)));
    b.inject_connection_closed(&peer(1), &dial(3));
    assert!(!b.node(&peer(1)).unwrap().is_connected());
}

#[test]
fn lost_peers_are_kept_for_ten_minutes() {
    let mut b = behaviour();
    b.inject_connection_established(&peer(1), &dial(1), at(0));
    b.inject_connection_established(&peer(2), &dial(2), at(0));
    b.collect_garbage(at(0));
    b.inject_disconnected(&peer(1), at(10));
    b.collect_garbage(at(610));
    assert!(b.node(&peer(1)).is_some());
    b.collect_garbage(at(729));
    assert!(b.node(&peer(1)).is_some());
    b.collect_garbage(at(730));
    assert!(b.node(&peer(1)).is_none());
    assert!(b.node(&peer(2)).is_some());
}

#[test]
fn peers_that_come_back_in_time_are_known() {
    let mut b = behaviour();
    b.inject_connection_established(&peer(1), &dial(1), at(0));
    ping(&mut b, 1, Duration { nanos: 5 });
    identify(&mut b, 1, "polkadot");
    b.inject_disconnected(&peer(1), at(10));
    b.inject_connection_established(&peer(1), &dial(2), at(610));
    assert_eq!(b.node(&peer(1)).unwrap().client_version(), Some("polkadot"));
    b.inject_disconnected(&peer(1), at(1000));
    b.inject_connection_established(&peer(1), &dial(2), at(1601));
    let node = b.node(&peer(1)).unwrap();
    assert_eq!(node.client_version(), None);
    assert_eq!(node.latest_ping(), None);
    b.collect_garbage(at(0));
    b.collect_garbage(at(100000));
    assert!(b.node(&peer(1)).is_some());
}
