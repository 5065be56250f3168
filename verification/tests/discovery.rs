use gateway_dot::behaviour::kadelmia::{
    bucket_entries, filter_addresses, protocol_name_from_protocol_id, DiscoveryBehaviour,
    DiscoveryConfig, DiscoveryOut, DiscoveryStep, KademliaEvent, MdnsEvent, ProtocolId,
    SelfReported,
};
use gateway_dot::behaviour::polled::Polled;
use gateway_dot::peer::{Multiaddr, PeerId};
use gateway_dot::time::{Duration, Instant};
use libp2p::kad::QueryInfo;

fn at(millis: u128) -> Instant {
    Instant { nanos: millis * 1_000_000 }
}

fn peer(n: u8) -> PeerId {
    let mut bytes = vec![0, 32];
    bytes.extend_from_slice(&[n; 32]);
    PeerId::from_bytes(bytes).unwrap()
}

fn address(text: &str) -> Multiaddr {
    let parsed: libp2p::Multiaddr = text.parse().unwrap();
    Multiaddr::from_bytes(parsed.to_vec()).unwrap()
}

fn config() -> DiscoveryConfig {
    let mut config = DiscoveryConfig::for_peer(peer(9));
    config.add_protocol(ProtocolId::from("dot")).add_protocol(ProtocolId::from("ksmcc3"));
    config
}

fn discovery() -> DiscoveryBehaviour {
    config().finish(at(0))
}

type Step = DiscoveryStep<u32>;

#[test]
fn chains_name_their_protocols() {
    let id = ProtocolId::from("dot");
    assert_eq!(id.as_ref(), "dot");
    assert_eq!(protocol_name_from_protocol_id(&id), b"/dot/kad".to_vec());
    let long = ProtocolId::from("gr\u{fc}\u{df}e-aus-der-kette");
    assert_eq!(long.as_ref(), "gr\u{fc}\u{df}e-aus-der-kette");
    assert!(long.clone().same(&long));
    assert!(!long.same(&id));
    assert_ne!(protocol_name_from_protocol_id(&long), protocol_name_from_protocol_id(&id));
}

#[test]
fn every_chain_has_one_table() {
    let mut config = config();
    config.add_protocol(ProtocolId::from("dot"));
    let mut discovery = config.finish(at(0));
    assert_eq!(discovery.num_kademlias(), 2);
    assert_eq!(discovery.protocol_id(0).as_ref(), "dot");
    assert_eq!(discovery.protocol_id(1).as_ref(), "ksmcc3");
    assert_eq!(discovery.kademlia_mut(0).protocol_name(), b"/dot/kad");
    assert_eq!(discovery.kademlia_mut(1).protocol_name(), b"/ksmcc3/kad");
    assert_eq!(discovery.inject_event(&ProtocolId::from("ksmcc3")), Some(1));
    assert_eq!(discovery.inject_event(&ProtocolId::from("other")), None);
    assert!(!discovery.uses_mdns());
    assert!(discovery.known_peers().is_empty());
}

#[test]
fn the_identity_of_the_node_is_that_of_its_key() {
    let key = libp2p::identity::Keypair::generate_ed25519().public();
    let mut discovery = DiscoveryConfig::new(key.clone()).finish(at(0));
    let own = address("/ip4/1.2.3.4/tcp/30333");
    let id = PeerId::from_bytes(key.into_peer_id().to_bytes()).unwrap();
    let told = discovery.inject_new_external_addr(&own).unwrap();
    assert!(told.same(&own.with_peer(&id)));
    assert!(discovery.inject_new_external_addr(&own).is_none());
    assert_eq!(&id.as_bytes()[..6], &[0, 36, 8, 1, 18, 32]);
}

#[test]
fn external_addresses_are_kept_up_to_a_limit() {
    let mut discovery = discovery();
    for n in 0..33 {
        let own = address(&format!("/ip4/1.2.3.{}/tcp/30333", n));
        assert!(discovery.inject_new_external_addr(&own).is_some());
    }
    assert!(discovery.inject_new_external_addr(&address("/ip4/1.2.3.1/tcp/30333")).is_none());
    assert!(discovery.inject_new_external_addr(&address("/ip4/1.2.3.0/tcp/30333")).is_some());
    assert!(discovery.inject_new_external_addr(&address("/ip4/1.2.3.1/tcp/30333")).is_none());
    assert!(discovery.inject_new_external_addr(&address("/ip4/1.2.3.2/tcp/30333")).is_some());
}

#[test]
fn only_global_addresses_and_names_enter_the_tables() {
    let discovery = discovery();
    for text in [
        "/ip4/80.9.12.3/tcp/1",
        "/ip4/192.168.0.9/tcp/1",
        "/ip4/100.128.0.1/tcp/1",
        "/ip4/172.32.0.1/tcp/1",
        "/ip4/198.20.0.1/tcp/1",
        "/ip4/192.0.1.1/tcp/1",
        "/ip4/224.0.0.1/tcp/1",
        "/ip6/2a00::1/tcp/1",
        "/ip6/ff0e::1/tcp/1",
        "/ip6/::2/tcp/1",
        "/dns/example.com/tcp/1",
        "/dns4/example.com/tcp/1",
        "/dns6/example.com/tcp/1",
    ] {
        assert!(discovery.can_add_to_dht(&address(text)), "{}", text);
    }
    for text in [
        "/ip4/0.1.2.3/tcp/1",
        "/ip4/10.0.0.1/tcp/1",
        "/ip4/172.16.0.1/tcp/1",
        "/ip4/172.31.255.1/tcp/1",
        "/ip4/192.168.1.1/tcp/1",
        "/ip4/192.0.0.9/tcp/1",
        "/ip4/100.64.0.1/tcp/1",
        "/ip4/127.0.0.1/tcp/1",
        "/ip4/169.254.1.1/tcp/1",
        "/ip4/192.0.2.1/tcp/1",
        "/ip4/198.51.100.1/tcp/1",
        "/ip4/203.0.113.1/tcp/1",
        "/ip4/198.18.0.1/tcp/1",
        "/ip4/198.19.0.1/tcp/1",
        "/ip4/240.0.0.1/tcp/1",
        "/ip4/255.255.255.255/tcp/1",
        "/ip6/::/tcp/1",
        "/ip6/::1/tcp/1",
        "/ip6/fe80::1/tcp/1",
        "/ip6/fec0::1/tcp/1",
        "/ip6/fc00::1/tcp/1",
        "/ip6/fd00::1/tcp/1",
        "/ip6/2001:db8::1/tcp/1",
        "/ip6/ff02::1/tcp/1",
        "/ip6/ff07::1/tcp/1",
        "/dnsaddr/example.com",
        "/tcp/1",
    ] {
        assert!(!discovery.can_add_to_dht(&address(text)), "{}", text);
    }
    assert!(!discovery.can_add_to_dht(&Multiaddr::from_bytes(vec![]).unwrap()));
}

#[test]
fn self_reported_addresses_are_noted_for_shared_protocols() {
    let discovery = discovery();
    let global = address("/ip4/80.9.12.3/tcp/1");
    let private = address("/ip4/10.0.0.1/tcp/1");
    let both = vec![b"/ping".to_vec(), b"/ksmcc3/kad".to_vec(), b"/dot/kad".to_vec()];
    match discovery.add_self_reported_address(&peer(1), &both, &global) {
        SelfReported::Noted(names) => {
            assert_eq!(names, vec![b"/ksmcc3/kad".to_vec(), b"/dot/kad".to_vec()]);
        }
        _ => panic!("not noted"),
    }
    let none = vec![b"/ping".to_vec()];
    assert!(matches!(
        discovery.add_self_reported_address(&peer(1), &none, &global),
        SelfReported::NoDht
    ));
    assert!(matches!(
        discovery.add_self_reported_address(&peer(1), &both, &private),
        SelfReported::NonGlobal
    ));
    let mut open = config();
    open.allow_non_globals_in_dht(true);
    assert!(matches!(
        open.finish(at(0)).add_self_reported_address(&peer(1), &both, &private),
        SelfReported::Noted(_)
    ));
}

#[test]
fn records_are_put_into_every_table() {
    let mut discovery = discovery();
    discovery.put_value(b"key", vec![1, 2, 3]);
    discovery.put_value(b"other", vec![4; 10]);
    discovery.put_value(b"key", vec![5]);
    let counts = discovery.num_kademlia_records();
    assert_eq!(counts.len(), 2);
    assert_eq!(counts[0].0.as_ref(), "dot");
    assert_eq!(counts[0].1, 2);
    let sizes = discovery.kademlia_records_total_size();
    assert_eq!(sizes[1].0.as_ref(), "ksmcc3");
    assert_eq!(sizes[1].1, 11);
    let puts = discovery
        .kademlia_mut(0)
        .iter_queries()
        .filter(|q| matches!(q.info(), QueryInfo::PutRecord { .. }))
        .count();
    assert_eq!(puts, 3);
}

#[test]
fn records_that_are_too_large_are_refused_by_every_table() {
    let mut discovery = discovery();
    discovery.put_value(b"key", vec![0; 65 * 1024]);
    assert_eq!(discovery.num_kademlia_records()[0].1, 0);
    for _ in 0..2 {
        match discovery.poll::<u32>(at(0)) {
            DiscoveryStep::Event(DiscoveryOut::ValuePutFailed(key, time)) => {
                assert_eq!(key, b"key".to_vec());
                assert_eq!(time, Duration { nanos: 0 });
            }
            _ => panic!("not told"),
        }
    }
    discovery.put_value(b"key", vec![0; 65 * 1024 - 1]);
    assert_eq!(discovery.num_kademlia_records()[0].1, 1);
}

#[test]
fn tables_keep_a_limited_number_of_records() {
    let mut discovery = discovery();
    for n in 0..1024u32 {
        discovery.put_value(&n.to_be_bytes(), vec![1]);
    }
    assert_eq!(discovery.num_kademlia_records()[0].1, 1024);
    discovery.put_value(b"one more", vec![1]);
    assert_eq!(discovery.num_kademlia_records()[0].1, 1024);
    assert!(matches!(
        discovery.poll::<u32>(at(0)),
        DiscoveryStep::Event(DiscoveryOut::ValuePutFailed(..))
    ));
    discovery.put_value(&0u32.to_be_bytes(), vec![1, 2]);
    assert_eq!(discovery.kademlia_records_total_size()[0].1, 1025);
}

#[test]
fn records_are_looked_for_in_every_table() {
    let mut discovery = discovery();
    discovery.get_value(b"key");
    for index in 0..2 {
        let dht = discovery.kademlia_mut(index);
        let mut queries = dht.iter_queries();
        match queries.next().unwrap().info() {
            QueryInfo::GetRecord { key, quorum, .. } => {
                assert_eq!(key.to_vec(), b"key".to_vec());
                assert_eq!(quorum.get(), 1);
            }
            _ => panic!("another query"),
        }
        assert!(queries.next().is_none());
    }
}

#[test]
fn random_queries_are_started_at_growing_intervals() {
    let mut discovery = discovery();
    let mut due: u128 = 0;
    for (round, delay) in [1u128, 2, 4, 8, 16, 32, 60, 60].iter().enumerate() {
        if due > 0 {
            let step: Step = discovery.poll(at(due - 1));
            assert!(matches!(step, DiscoveryStep::PollKademlia(0)));
        }
        match discovery.poll::<u32>(at(due)) {
            DiscoveryStep::Event(DiscoveryOut::RandomKademliaStarted(ids)) => {
                assert_eq!(ids.len(), 2);
                assert_eq!(ids[0].as_ref(), "dot");
                assert_eq!(ids[1].as_ref(), "ksmcc3");
            }
            _ => panic!("not started"),
        }
        let dht = discovery.kademlia_mut(1);
        let searches = dht
            .iter_queries()
            .filter(|q| matches!(q.info(), QueryInfo::GetClosestPeers { .. }))
            .count();
        assert_eq!(searches, round + 1);
        due += delay * 1000;
    }
}

#[test]
fn random_queries_pause_when_there_are_enough_connections() {
    let mut config = config();
    config.discovery_limit(1);
    let mut discovery = config.finish(at(0));
    discovery.inject_connection_established();
    let step: Step = discovery.poll(at(0));
    assert!(matches!(step, DiscoveryStep::PollKademlia(0)));
    assert_eq!(discovery.kademlia_mut(0).iter_queries().count(), 0);
    discovery.inject_connection_closed();
    let step: Step = discovery.poll(at(999));
    assert!(matches!(step, DiscoveryStep::PollKademlia(0)));
    let step: Step = discovery.poll(at(1000));
    assert!(matches!(step, DiscoveryStep::Event(DiscoveryOut::RandomKademliaStarted(_))));
}

fn after(event: KademliaEvent) -> Step {
    discovery().poll_kademlia(0, Polled::Event(event))
}

#[test]
fn peers_that_tables_report_are_told() {
    let routed = after(KademliaEvent::RoutingUpdated { peer: peer(1) });
    assert!(matches!(routed, DiscoveryStep::Event(DiscoveryOut::Discovered(p)) if p.same(&peer(1))));
    let routable = after(KademliaEvent::RoutablePeer { peer: peer(2) });
    assert!(
        matches!(routable, DiscoveryStep::Event(DiscoveryOut::Discovered(p)) if p.same(&peer(2)))
    );
    let unroutable = after(KademliaEvent::UnroutablePeer { peer: peer(3) });
    assert!(matches!(
        unroutable,
        DiscoveryStep::Event(DiscoveryOut::UnroutablePeer(p)) if p.same(&peer(3))
    ));
    for silent in [
        KademliaEvent::PendingRoutablePeer { peer: peer(4) },
        KademliaEvent::GetClosestPeers,
        KademliaEvent::RepublishRecord,
        KademliaEvent::Other,
    ] {
        assert!(matches!(after(silent), DiscoveryStep::PollKademlia(0)));
    }
}

#[test]
fn results_of_queries_are_told() {
    let time = Duration { nanos: 5 };
    let found = after(KademliaEvent::GetRecord {
        result: Ok(vec![(vec![1], vec![2])]),
        duration: Some(time),
    });
    match found {
        DiscoveryStep::Event(DiscoveryOut::ValueFound(records, took)) => {
            assert_eq!(records, vec![(vec![1], vec![2])]);
            assert_eq!(took, time);
        }
        _ => panic!("not found"),
    }
    let missing = after(KademliaEvent::GetRecord { result: Err(vec![3]), duration: None });
    match missing {
        DiscoveryStep::Event(DiscoveryOut::ValueNotFound(key, took)) => {
            assert_eq!(key, vec![3]);
            assert_eq!(took, Duration { nanos: 0 });
        }
        _ => panic!("not missing"),
    }
    let put = after(KademliaEvent::PutRecord { result: Ok(vec![4]), duration: Some(time) });
    assert!(matches!(put, DiscoveryStep::Event(DiscoveryOut::ValuePut(k, t)) if k == [4] && t == time));
    let failed = after(KademliaEvent::PutRecord { result: Err(vec![5]), duration: Some(time) });
    assert!(
        matches!(failed, DiscoveryStep::Event(DiscoveryOut::ValuePutFailed(k, t)) if k == [5] && t == time)
    );
}

#[test]
fn tables_are_looked_at_in_turn() {
    let mut with_mdns = config();
    with_mdns.with_mdns(true);
    let plain = discovery();
    let local = with_mdns.finish(at(0));
    let step: Step = plain.poll_kademlia(0, Polled::Pending);
    assert!(matches!(step, DiscoveryStep::PollKademlia(1)));
    let step: Step = plain.poll_kademlia(1, Polled::Pending);
    assert!(matches!(step, DiscoveryStep::Pending));
    let step: Step = local.poll_kademlia(1, Polled::Pending);
    assert!(matches!(step, DiscoveryStep::PollMdns));
    let step: Step = plain.poll_kademlia(1, Polled::Forward(8));
    match step {
        DiscoveryStep::Forward { protocol: Some(id), action } => {
            assert_eq!(id.as_ref(), "ksmcc3");
            assert_eq!(action, 8);
        }
        _ => panic!("not forwarded"),
    }
}

#[test]
fn peers_on_the_local_network_are_told_one_by_one() {
    let mut discovery = discovery();
    let list = vec![
        (peer(1), address("/ip4/10.0.0.1/tcp/1")),
        (peer(2), address("/ip4/10.0.0.2/tcp/1")),
    ];
    let step: Step = discovery.poll_mdns(Polled::Event(MdnsEvent::Discovered(list)));
    assert!(matches!(step, DiscoveryStep::Event(DiscoveryOut::Discovered(p)) if p.same(&peer(1))));
    let step: Step = discovery.poll(at(0));
    assert!(matches!(step, DiscoveryStep::Event(DiscoveryOut::Discovered(p)) if p.same(&peer(2))));
    let step: Step = discovery.poll_mdns(Polled::Event(MdnsEvent::Discovered(vec![])));
    assert!(matches!(step, DiscoveryStep::PollMdns));
    let step: Step = discovery.poll_mdns(Polled::Event(MdnsEvent::Expired));
    assert!(matches!(step, DiscoveryStep::PollMdns));
    let step: Step = discovery.poll_mdns(Polled::Pending);
    assert!(matches!(step, DiscoveryStep::Pending));
    let step: Step = discovery.poll_mdns(Polled::Forward(3));
    assert!(matches!(step, DiscoveryStep::Forward { protocol: None, action: 3 }));
}

#[test]
fn peers_on_the_local_network_are_ignored_when_there_are_enough_connections() {
    let mut config = config();
    config.discovery_limit(0);
    let mut discovery = config.finish(at(0));
    let list = vec![(peer(1), address("/ip4/10.0.0.1/tcp/1"))];
    let step: Step = discovery.poll_mdns(Polled::Event(MdnsEvent::Discovered(list)));
    assert!(matches!(step, DiscoveryStep::PollMdns));
    let step: Step = discovery.poll(at(0));
    assert!(matches!(step, DiscoveryStep::PollKademlia(0)));
}

#[test]
fn private_addresses_are_handed_out_only_if_allowed() {
    let list = || {
        vec![
            address("/ip4/10.0.0.1/tcp/1"),
            address("/ip4/80.9.12.3/tcp/1"),
            address("/ip4/172.20.0.1/tcp/1"),
            address("/dns/example.com/tcp/1"),
            address("/ip4/192.168.0.9/tcp/1"),
            address("/ip4/127.0.0.1/tcp/1"),
        ]
    };
    assert_eq!(filter_addresses(true, list()).len(), 6);
    let kept = filter_addresses(false, list());
    assert_eq!(kept.len(), 3);
    assert!(kept[0].same(&list()[1]));
    assert!(kept[1].same(&list()[3]));
    assert!(kept[2].same(&list()[5]));
}

#[test]
fn addresses_in_the_tables_are_handed_out() {
    let mut strict = config();
    strict.allow_private_ipv4(false).use_kademlia_disjoint_query_paths(true);
    let mut strict = strict.finish(at(0));
    let mut open = discovery();
    let known = libp2p::PeerId::from_bytes(peer(7).as_bytes()).unwrap();
    for discovery in [&mut strict, &mut open] {
        let dht = discovery.kademlia_mut(1);
        dht.add_address(&known, "/ip4/10.0.0.1/tcp/1".parse().unwrap());
        dht.add_address(&known, "/ip4/80.9.12.3/tcp/1".parse().unwrap());
        let entries = discovery.num_entries_per_kbucket();
        assert_eq!(entries[0].1, vec![]);
        assert_eq!(entries[1].0.as_ref(), "ksmcc3");
        assert_eq!(entries[1].1.len(), 1);
        assert_eq!(entries[1].1[0].1, 1);
    }
    assert_eq!(open.addresses_of_peer(&peer(7)).len(), 2);
    let kept = strict.addresses_of_peer(&peer(7));
    assert_eq!(kept.len(), 1);
    assert!(kept[0].same(&address("/ip4/80.9.12.3/tcp/1")));
    assert!(open.addresses_of_peer(&peer(8)).is_empty());
}

#[test]
fn buckets_at_the_node_itself_count_as_zero() {
    let entries = bucket_entries(&vec![(None, 2), (Some(255), 7)]);
    assert_eq!(entries, vec![(0, 2), (255, 7)]);
}

#[test]
fn addresses_that_the_node_is_given_are_not_made_use_of() {
    let mut config = config();
    config.with_user_defined(vec![(peer(7), address("/ip4/80.9.12.3/tcp/1"))]);
    let mut discovery = config.finish(at(0));
    discovery.add_known_address(peer(7), address("/ip4/80.9.12.3/tcp/1"));
    assert!(discovery.addresses_of_peer(&peer(7)).is_empty());
    assert!(discovery.known_peers().is_empty());
}

#[test]
fn searches_are_for_the_peer_that_is_given() {
    let mut discovery = discovery();
    discovery.search(&peer(3));
    for index in 0..2 {
        let dht = discovery.kademlia_mut(index);
        match dht.iter_queries().next().unwrap().info() {
            QueryInfo::GetClosestPeers { key } => assert_eq!(key, &peer(3).as_bytes().to_vec()),
            _ => panic!("another query"),
        }
    }
    assert_eq!(discovery.num_connections(), 0);
    assert_eq!(discovery.next_query_at(), at(0));
}

#[test]
fn addresses_with_long_codes_are_treated_as_what_they_are() {
    let long = |octets: [u8; 4]| {
        let mut bytes = vec![0x84, 0x80, 0x80, 0x80, 0x10];
        bytes.extend_from_slice(&octets);
        Multiaddr::from_bytes(bytes).unwrap()
    };
    let discovery = discovery();
    assert!(discovery.can_add_to_dht(&long([8, 8, 8, 8])));
    assert!(!discovery.can_add_to_dht(&long([10, 0, 0, 1])));
    let supported = vec![b"/dot/kad".to_vec()];
    assert!(matches!(
        discovery.add_self_reported_address(&peer(1), &supported, &long([8, 8, 8, 8])),
        SelfReported::Noted(_)
    ));
    assert!(matches!(
        discovery.add_self_reported_address(&peer(1), &supported, &long([10, 0, 0, 1])),
        SelfReported::NonGlobal
    ));
    let kept = filter_addresses(false, vec![long([10, 0, 0, 1]), long([8, 8, 8, 8])]);
    assert_eq!(kept.len(), 1);
    assert!(kept[0].same(&long([8, 8, 8, 8])));
}

#[test]
fn delays_grow_while_discovery_is_paused() {
    let mut config = config();
    config.discovery_limit(1);
    let mut discovery = config.finish(at(0));
    discovery.inject_connection_established();
    let mut due: u128 = 0;
    for delay in [1u128, 2, 4, 8, 16, 32, 60, 60] {
        assert_eq!(discovery.next_query_at(), at(due));
        let step: Step = discovery.poll(at(due));
        assert!(matches!(step, DiscoveryStep::PollKademlia(0)));
        due += delay * 1000;
    }
    assert_eq!(discovery.kademlia_mut(0).iter_queries().count(), 0);
}

#[test]
fn addresses_in_a_table_come_first_and_in_order() {
    let mut discovery = discovery();
    let known = libp2p::PeerId::from_bytes(peer(7).as_bytes()).unwrap();
    let texts = ["/ip4/80.9.12.3/tcp/1", "/ip4/80.9.12.1/tcp/1", "/ip4/80.9.12.2/tcp/1"];
    for text in texts {
        discovery.kademlia_mut(0).add_address(&known, text.parse().unwrap());
    }
    let list = discovery.addresses_of_peer(&peer(7));
    assert_eq!(list.len(), 3);
    for (given, text) in list.iter().zip(texts) {
        assert!(given.same(&address(text)));
    }
}

#[test]
fn records_that_share_a_key_count_each() {
    let mut discovery = discovery();
    discovery.put_value(b"a", vec![1; 3]);
    discovery.put_value(b"b", vec![2; 4]);
    discovery.kademlia_mut(0).store_mut().retain(|_, record| {
        record.key = libp2p::kad::record::Key::new(b"same");
        true
    });
    assert_eq!(discovery.num_kademlia_records()[0].1, 2);
    assert_eq!(discovery.kademlia_records_total_size()[0].1, 7);
}
