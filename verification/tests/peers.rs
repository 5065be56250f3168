use gateway_dot::peer::{ConnectedPoint, Multiaddr, PeerId, Protocol};

fn address(text: &str) -> Multiaddr {
    let parsed: libp2p::Multiaddr = text.parse().unwrap();
    Multiaddr::from_bytes(parsed.to_vec()).unwrap()
}

#[test]
fn identities_are_those_of_the_network() {
    for _ in 0..20 {
        let bytes = libp2p::PeerId::random().to_bytes();
        let id = PeerId::from_bytes(bytes.clone()).unwrap();
        assert_eq!(id.as_bytes(), &bytes[..]);
    }
    let candidates: Vec<Vec<u8>> = vec![
        vec![],
        vec![0],
        vec![0, 0],
        vec![0, 1, 5],
        vec![0, 2, 5],
        vec![0, 1, 5, 5],
        [&[0u8, 42][..], &[1; 42]].concat(),
        [&[0u8, 43][..], &[1; 43]].concat(),
        [&[18u8, 32][..], &[1; 32]].concat(),
        [&[18u8, 64][..], &[1; 64]].concat(),
        [&[18u8, 65][..], &[1; 65]].concat(),
        [&[19u8, 32][..], &[1; 32]].concat(),
        [&[0x92u8, 0, 32][..], &[1; 32]].concat(),
    ];
    for bytes in candidates {
        assert_eq!(
            PeerId::from_bytes(bytes.clone()).is_some(),
            libp2p::PeerId::from_bytes(&bytes).is_ok(),
            "{:?}",
            bytes
        );
    }
}

#[test]
fn addresses_are_those_of_the_network() {
    assert!(Multiaddr::from_bytes(vec![4, 1, 2, 3]).is_none());
    assert!(Multiaddr::from_bytes(vec![1]).is_none());
    let ip = address("/ip4/1.2.3.4/tcp/80");
    assert_eq!(ip.as_bytes(), &[4, 1, 2, 3, 4, 6, 0, 80]);
    assert_eq!(ip.first(), Some(Protocol::Ip4([1, 2, 3, 4])));
    let v6 = address("/ip6/102:304:506:708:90a:b0c:d0e:f10");
    assert_eq!(
        v6.first(),
        Some(Protocol::Ip6([1, 2, 3, 4, 5, 6, 7, 8, 9, 10, 11, 12, 13, 14, 15, 16]))
    );
    assert_eq!(address("/dns/a.b").first(), Some(Protocol::Dns));
    assert_eq!(address("/dns4/a.b").first(), Some(Protocol::Dns4));
    assert_eq!(address("/dns6/a.b").first(), Some(Protocol::Dns6));
    assert_eq!(address("/udp/5").first(), Some(Protocol::Other));
    assert_eq!(Multiaddr::from_bytes(vec![]).unwrap().first(), None);
}

#[test]
fn addresses_take_the_peer_that_is_there() {
    let peer = libp2p::PeerId::random();
    let id = PeerId::from_bytes(peer.to_bytes()).unwrap();
    let longer = address("/ip4/1.2.3.4/tcp/80").with_peer(&id);
    let text = format!("/ip4/1.2.3.4/tcp/80/p2p/{}", peer);
    assert!(longer.same(&address(&text)));
    assert_eq!(&longer.as_bytes()[8..11], &[0xa5, 0x03, 34]);
}

#[test]
fn connections_with_the_same_ends_are_the_same() {
    let dial = |text: &str| ConnectedPoint::Dialer { address: address(text) };
    let listen = |text: &str| ConnectedPoint::Listener {
        local_addr: address("/ip4/1.1.1.1"),
        send_back_addr: address(text),
    };
    assert!(dial("/ip4/1.2.3.4").same(&dial("/ip4/1.2.3.4")));
    assert!(dial("/ip4/1.2.3.4").differs(&dial("/ip4/1.2.3.5")));
    assert!(listen("/ip4/1.2.3.4").same(&listen("/ip4/1.2.3.4").clone()));
    assert!(listen("/ip4/1.2.3.4").differs(&listen("/ip4/1.2.3.5")));
    assert!(listen("/ip4/1.2.3.4").differs(&dial("/ip4/1.2.3.4")));
}

#[test]
fn codes_may_take_five_digits() {
    let global = vec![0x84, 0x80, 0x80, 0x80, 0x10, 8, 8, 8, 8];
    assert!(libp2p::Multiaddr::try_from(global.clone()).is_ok());
    let global = Multiaddr::from_bytes(global).unwrap();
    assert_eq!(global.first(), Some(Protocol::Ip4([8, 8, 8, 8])));
    let named = vec![0xb5, 0x80, 0x80, 0x80, 0x10, 1, b'a'];
    assert_eq!(Multiaddr::from_bytes(named).unwrap().first(), Some(Protocol::Dns));
}
