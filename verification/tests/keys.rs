use gateway_dot::node_keys::identity_key::{
    local_peer_id, peer_id_of, raw_key, LoadError, LoadOrGenerate, NodeKey,
};
use libp2p::identity::{ed25519, Keypair};

fn node_key() -> NodeKey {
    NodeKey { file: "gateway_dot.key".into() }
}

#[test]
fn saved_keys_are_loaded() {
    let text = node_key().save_raw_key();
    assert_eq!(text.len(), 64);
    assert!(text.iter().all(|c| c.is_ascii_digit() || (b'a'..=b'f').contains(c)));
    let pair = node_key().load_key::<()>(Ok(text.clone())).unwrap();
    assert_eq!(raw_key(&pair), text);
    let again = node_key().save_raw_key();
    assert_ne!(again, text);
}

#[test]
fn the_digits_of_a_key_are_those_of_its_secret() {
    let mut secret: Vec<u8> = (0xe0..=0xff).collect();
    let pair = ed25519::Keypair::from(ed25519::SecretKey::from_bytes(&mut secret).unwrap());
    let text = raw_key(&pair);
    assert_eq!(&text[..6], b"e0e1e2");
    assert_eq!(&text[62..], b"ff");
    let loaded = node_key().load_key::<()>(Ok(text.to_ascii_uppercase())).unwrap();
    assert_eq!(loaded.public(), pair.public());
}

#[test]
fn files_without_a_key_are_refused() {
    assert!(matches!(node_key().load_key(Err("gone")), Err(LoadError::Read("gone"))));
    let odd = node_key().load_key::<()>(Ok(b"abc".to_vec()));
    assert!(matches!(odd, Err(LoadError::Hex)));
    let other = node_key().load_key::<()>(Ok(b"xy".to_vec()));
    assert!(matches!(other, Err(LoadError::Hex)));
    let short = node_key().load_key::<()>(Ok(b"abcd".to_vec()));
    assert!(matches!(short, Err(LoadError::BadKey)));
    let long = node_key().load_key::<()>(Ok(vec![b'0'; 66]));
    assert!(matches!(long, Err(LoadError::BadKey)));
    let empty = node_key().load_key::<()>(Ok(vec![]));
    assert!(matches!(empty, Err(LoadError::BadKey)));
}

#[test]
fn keys_are_loaded_or_generated() {
    let text = vec![b'7'; 64];
    match node_key().load_or_generate::<()>(true, Ok(text.clone())) {
        LoadOrGenerate::Loaded(pair) => assert_eq!(raw_key(&pair), text),
        _ => panic!("not loaded"),
    }
    match node_key().load_or_generate(false, Err("gone")) {
        LoadOrGenerate::Save(text) => {
            assert!(node_key().load_key::<()>(Ok(text)).is_ok());
        }
        _ => panic!("not generated"),
    }
}

#[test]
fn generated_keys_are_ed25519_keys() {
    let pair = NodeKey::generate_key();
    assert!(matches!(pair, Keypair::Ed25519(_)));
    let encoding = pair.public().into_protobuf_encoding();
    assert_eq!(encoding.len(), 36);
    assert_eq!(&encoding[..4], &[8, 1, 18, 32]);
}

#[test]
fn the_identity_of_a_node_holds_its_public_key() {
    let pair = NodeKey::generate_key();
    let id = local_peer_id(&pair);
    assert_eq!(id.as_bytes(), &pair.public().into_peer_id().to_bytes()[..]);
    assert_eq!(&id.as_bytes()[..6], &[0, 36, 8, 1, 18, 32]);
    assert_eq!(id.as_bytes().len(), 38);
    assert!(peer_id_of(pair.public()).same(&id));
}
