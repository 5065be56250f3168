//! The key that identifies the node, and the file that it is kept in.
use crate::peer::{is_peer_id, PeerId};
use vstd::prelude::*;

verus! {

/// The path of a file, carried as it comes.
#[verifier::external_type_specification]
#[verifier::external_body]
pub struct ExPathBuf(std::path::PathBuf);

/// A key pair of `libp2p`, carried as it comes.
#[verifier::external_type_specification]
#[verifier::external_body]
pub struct ExKeypair(libp2p::identity::Keypair);

/// A public key of `libp2p`, carried as it comes.
#[verifier::external_type_specification]
#[verifier::external_body]
pub struct ExPublicKey(libp2p::core::PublicKey);

/// An Ed25519 key pair of `libp2p`, carried as it comes.
#[verifier::external_type_specification]
#[verifier::external_body]
pub struct ExEd25519Keypair(libp2p::identity::ed25519::Keypair);

/// An Ed25519 secret key of `libp2p`, carried as it comes.
#[verifier::external_type_specification]
#[verifier::external_body]
pub struct ExSecretKey(libp2p::identity::ed25519::SecretKey);

/// The error of `libp2p` on bytes that are no key, carried as it comes.
#[verifier::external_type_specification]
#[verifier::external_body]
pub struct ExDecodingError(libp2p::identity::error::DecodingError);

/// The error of `hex` on text that is not hexadecimal, carried as it comes.
#[verifier::external_type_specification]
#[verifier::external_body]
pub struct ExFromHexError(hex::FromHexError);

/// The protobuf encoding of a `libp2p::core::PublicKey`.
pub uninterp spec fn key_encoding(key: libp2p::core::PublicKey) -> Seq<u8>;

/// The protobuf encoding of the public key of a `libp2p::identity::Keypair`.
pub uninterp spec fn pair_encoding(pair: libp2p::identity::Keypair) -> Seq<u8>;

/// The bytes of a `libp2p::identity::ed25519::SecretKey`.
pub uninterp spec fn secret_bytes(secret: libp2p::identity::ed25519::SecretKey) -> Seq<u8>;

/// The bytes of the secret key of a `libp2p::identity::ed25519::Keypair`.
pub uninterp spec fn pair_secret(pair: libp2p::identity::ed25519::Keypair) -> Seq<u8>;

/// The SHA2-256 digest that `libp2p::PeerId::from_public_key` takes of a long key.
pub uninterp spec fn sha2_256(data: Seq<u8>) -> Seq<u8>;

/// Whether a byte string is the protobuf encoding of an Ed25519 public key: the
/// kind of the key, then its 32 bytes.
pub open spec fn is_ed25519_encoding(b: Seq<u8>) -> bool {
    b.len() == 36 && b.take(4) == seq![8u8, 1u8, 18u8, 32u8]
}

/// The identity of the peer whose public key has an encoding: an encoding of at most 42
/// bytes stands in it as it is, of a longer one the digest does.
pub open spec fn key_peer_id(encoding: Seq<u8>) -> Seq<u8> {
    if encoding.len() <= 42 {
        seq![0u8, encoding.len() as u8] + encoding
    } else {
        seq![18u8, 32u8] + sha2_256(encoding)
    }
}

/// The hexadecimal digit for a number below 16.
pub open spec fn hex_digit(n: nat) -> u8 {
    if n < 10 {
        (48 + n) as u8
    } else {
        (87 + n) as u8
    }
}

/// The number that a hexadecimal digit stands for, in either case.
pub open spec fn digit_value(c: u8) -> Option<nat> {
    if 48 <= c <= 57 {
        Some((c - 48) as nat)
    } else if 65 <= c <= 70 {
        Some((c - 55) as nat)
    } else if 97 <= c <= 102 {
        Some((c - 87) as nat)
    } else {
        None
    }
}

/// The hexadecimal text for bytes: two digits for each, the high one first.
pub open spec fn hex_text(b: Seq<u8>) -> Seq<u8> {
    Seq::new(
        2 * b.len(),
        |i: int|
            hex_digit(
                if i % 2 == 0 {
                    (b[i / 2] / 16) as nat
                } else {
                    (b[i / 2] % 16) as nat
                },
            ),
    )
}

/// The bytes that a hexadecimal text stands for, if it is one.
pub open spec fn hex_bytes(text: Seq<u8>) -> Option<Seq<u8>> {
    if text.len() % 2 == 0 && forall|i: int|
        0 <= i < text.len() ==> digit_value(#[trigger] text[i]) is Some {
        Some(
            Seq::new(
                text.len() / 2,
                |i: int| (16 * digit_value(text[2 * i])->0 + digit_value(text[2 * i + 1])->0) as u8,
            ),
        )
    } else {
        None
    }
}

/// `hex::encode`: the digits of the bytes, in lower case.
#[verifier::external_body]
fn hex_encode(data: &[u8]) -> (text: Vec<u8>)
    ensures
        text@ == hex_text(data@),
{
    hex::encode(data).into_bytes()
}

/// `hex::decode`: the bytes of a text of digits in either case. It fails on a text of
/// odd length, and on one with another character.
#[verifier::external_body]
fn hex_decode(text: &[u8]) -> (r: Result<Vec<u8>, hex::FromHexError>)
    ensures
        match r {
            Ok(data) => hex_bytes(text@) == Some(data@),
            Err(_) => hex_bytes(text@) is None,
        },
{
    hex::decode(text)
}

/// `libp2p::identity::Keypair::generate_ed25519`: an Ed25519 key pair. Which one is
/// left to chance.
#[verifier::external_body]
fn generate_ed25519() -> (pair: libp2p::identity::Keypair)
    ensures
        is_ed25519_encoding(pair_encoding(pair)),
{
    libp2p::identity::Keypair::generate_ed25519()
}

/// `libp2p::identity::ed25519::Keypair::generate`: a key pair with a secret key of 32
/// bytes. Which one is left to chance.
#[verifier::external_body]
fn generate_pair() -> (pair: libp2p::identity::ed25519::Keypair)
    ensures
        pair_secret(pair).len() == 32,
{
    libp2p::identity::ed25519::Keypair::generate()
}

/// `libp2p::identity::ed25519::Keypair::secret`: the secret key of a pair.
#[verifier::external_body]
fn secret_of(pair: &libp2p::identity::ed25519::Keypair) -> (secret:
    libp2p::identity::ed25519::SecretKey)
    ensures
        secret_bytes(secret) == pair_secret(*pair),
{
    pair.secret()
}

/// `as_ref` of `libp2p::identity::ed25519::SecretKey`: its bytes.
#[verifier::external_body]
fn secret_slice(secret: &libp2p::identity::ed25519::SecretKey) -> (bytes: &[u8])
    ensures
        bytes@ == secret_bytes(*secret),
{
    secret.as_ref()
}

/// `libp2p::identity::ed25519::SecretKey::from_bytes`: every string of 32 bytes is a
/// secret key, and no other is. The input is overwritten with zeros.
#[verifier::external_body]
fn secret_from_bytes(bytes: &mut Vec<u8>) -> (r: Result<
    libp2p::identity::ed25519::SecretKey,
    libp2p::identity::error::DecodingError,
>)
    ensures
        r is Ok <==> old(bytes)@.len() == 32,
        r matches Ok(secret) ==> secret_bytes(secret) == old(bytes)@,
        r is Ok ==> final(bytes)@ == Seq::new(32, |i: int| 0u8),
        r is Err ==> final(bytes)@ == old(bytes)@,
{
    libp2p::identity::ed25519::SecretKey::from_bytes(bytes)
}

/// `from` of `libp2p::identity::ed25519::Keypair` on a secret key: the pair with that
/// secret key.
#[verifier::external_body]
fn pair_from_secret(secret: libp2p::identity::ed25519::SecretKey) -> (pair:
    libp2p::identity::ed25519::Keypair)
    ensures
        pair_secret(pair) == secret_bytes(secret),
{
    libp2p::identity::ed25519::Keypair::from(secret)
}

/// `libp2p::identity::Keypair::public`: the public key of a pair.
#[verifier::external_body]
fn public_of(pair: &libp2p::identity::Keypair) -> (key: libp2p::core::PublicKey)
    ensures
        key_encoding(key) == pair_encoding(*pair),
{
    pair.public()
}

/// `libp2p::core::PublicKey::into_peer_id`: the identity of the peer with a key. A key
/// whose encoding has at most 42 bytes stands in it as it is, of a longer one the
/// digest does.
#[verifier::external_body]
fn into_peer_id(key: libp2p::core::PublicKey) -> (id: Vec<u8>)
    ensures
        is_peer_id(id@),
        key_encoding(key).len() <= 42 ==> id@ == seq![0u8, key_encoding(key).len() as u8]
            + key_encoding(key),
        key_encoding(key).len() > 42 ==> id@ == seq![18u8, 32u8] + sha2_256(key_encoding(key)),
{
    key.into_peer_id().to_bytes()
}

/// Why the key of the node could not be loaded.
#[derive(Debug, Clone, Copy, PartialEq, Eq)]
pub enum LoadError<E> {
    /// The file could not be read.
    Read(E),
    /// The file does not hold a hexadecimal text.
    Hex,
    /// The text does not stand for a secret key.
    BadKey,
}

/// What is left to do for a key to be had.
#[derive(Debug)]
pub enum LoadOrGenerate {
    /// Nothing: this is the key.
    Loaded(libp2p::identity::ed25519::Keypair),
    /// Write this to the file, and load the key from there.
    Save(Vec<u8>),
}

/// The file that the key of the node is kept in.
#[derive(Debug)]
pub struct NodeKey {
    pub file: std::path::PathBuf,
}

/// The secret key in a file, from what reading the file gave.
pub open spec fn loaded_secret<E>(content: Result<Vec<u8>, E>) -> Result<Seq<u8>, LoadError<E>> {
    match content {
        Err(e) => Err(LoadError::Read(e)),
        Ok(text) => match hex_bytes(text@) {
            None => Err(LoadError::Hex),
            Some(secret) => if secret.len() == 32 {
                Ok(secret)
            } else {
                Err(LoadError::BadKey)
            },
        },
    }
}

/// Whether a text is what is written for a secret key.
pub open spec fn is_saved_key(text: Seq<u8>, secret: Seq<u8>) -> bool {
    secret.len() == 32 && text == hex_text(secret)
}

/// Whether a text is what is written for some secret key.
pub open spec fn holds_key(text: Seq<u8>) -> bool {
    exists|secret: Seq<u8>| is_saved_key(text, secret)
}

/// What is written to the file for a key pair: the digits of its secret key.
pub fn raw_key(keypair: &libp2p::identity::ed25519::Keypair) -> (text: Vec<u8>)
    ensures
        text@ == hex_text(pair_secret(*keypair)),
{
    let secret = secret_of(keypair);
    hex_encode(secret_slice(&secret))
}

/// The identity of the peer with a public key.
pub fn peer_id_of(key: libp2p::core::PublicKey) -> (id: PeerId)
    ensures
        id@ == key_peer_id(key_encoding(key)),
        is_peer_id(id@),
        key_encoding(key).len() <= 42 ==> id@ == seq![0u8, key_encoding(key).len() as u8]
            + key_encoding(key),
        key_encoding(key).len() > 42 ==> id@ == seq![18u8, 32u8] + sha2_256(key_encoding(key)),
{
    match PeerId::from_bytes(into_peer_id(key)) {
        Some(id) => id,
        None => vstd::pervasive::unreached(),
    }
}

/// The identity of the node with a key pair.
pub fn local_peer_id(pair: &libp2p::identity::Keypair) -> (id: PeerId)
    ensures
        id@ == key_peer_id(pair_encoding(*pair)),
        is_peer_id(id@),
        pair_encoding(*pair).len() <= 42 ==> id@ == seq![0u8, pair_encoding(*pair).len() as u8]
            + pair_encoding(*pair),
        pair_encoding(*pair).len() > 42 ==> id@ == seq![18u8, 32u8] + sha2_256(
            pair_encoding(*pair),
        ),
{
    peer_id_of(public_of(pair))
}

impl NodeKey {
    /// A new key for a node that keeps none.
    pub fn generate_key() -> (pair: libp2p::identity::Keypair)
        ensures
            is_ed25519_encoding(pair_encoding(pair)),
    {
        generate_ed25519()
    }

    /// Makes a new key, and gives what is to be written to the file for it.
    pub fn save_raw_key(&self) -> (text: Vec<u8>)
        ensures
            holds_key(text@),
            text@.len() == 64,
    {
        let keypair = generate_pair();
        let text = raw_key(&keypair);
        assert(is_saved_key(text@, pair_secret(keypair)));
        text
    }

    /// The key in the file, from what reading the file gave.
    pub fn load_key<E>(&self, content: Result<Vec<u8>, E>) -> (r: Result<
        libp2p::identity::ed25519::Keypair,
        LoadError<E>,
    >)
        ensures
            match r {
                Ok(pair) => loaded_secret(content) == Ok::<Seq<u8>, LoadError<E>>(
                    pair_secret(pair),
                ),
                Err(e) => loaded_secret(content) == Err::<Seq<u8>, LoadError<E>>(e),
            },
            content matches Err(e) ==> r == Err::<libp2p::identity::ed25519::Keypair, LoadError<E>>(
                LoadError::Read(e),
            ),
            content matches Ok(text) ==> match hex_bytes(text@) {
                Some(secret) => if secret.len() == 32 {
                    r matches Ok(pair) && pair_secret(pair) == secret
                } else {
                    r matches Err(LoadError::BadKey)
                },
                None => r matches Err(LoadError::Hex),
            },
    {
        let text = match content {
            Ok(text) => text,
            Err(e) => return Err(LoadError::Read(e)),
        };
        let mut bytes = match hex_decode(text.as_slice()) {
            Ok(bytes) => bytes,
            Err(_) => return Err(LoadError::Hex),
        };
        match secret_from_bytes(&mut bytes) {
            Ok(secret) => Ok(pair_from_secret(secret)),
            Err(_) => Err(LoadError::BadKey),
        }
    }

    /// The key in the file, from what reading the file gave; where there is none, a
    /// new one to be written there. A key that is there is never overwritten.
    pub fn load_or_generate<E>(&self, _overwrite: bool, content: Result<Vec<u8>, E>) -> (next:
        LoadOrGenerate)
        ensures
            next is Loaded <==> (content matches Ok(text) && (hex_bytes(text@) matches Some(secret)
                && secret.len() == 32)),
            next matches LoadOrGenerate::Loaded(pair) ==> (content matches Ok(text) && hex_bytes(
                text@,
            ) == Some(pair_secret(pair))),
            next matches LoadOrGenerate::Save(text) ==> text@.len() == 64,
            next matches LoadOrGenerate::Loaded(pair) ==> loaded_secret(content) == Ok::<
                Seq<u8>,
                LoadError<E>,
            >(pair_secret(pair)),
            next matches LoadOrGenerate::Save(text) ==> loaded_secret(content) is Err && holds_key(
                text@,
            ),
    {
        match self.load_key(content) {
            Ok(pair) => LoadOrGenerate::Loaded(pair),
            Err(_) => LoadOrGenerate::Save(self.save_raw_key()),
        }
    }
}

/// Whether a byte is a hexadecimal digit, in either case.
pub open spec fn is_hex_digit(c: u8) -> bool {
    48 <= c <= 57 || 65 <= c <= 70 || 97 <= c <= 102
}

/// A key loads from a text of 64 hexadecimal digits, and from no other. A text that is not
/// made of pairs of digits is told apart from one of another length.
pub proof fn keys_load_from_64_digits<E>(text: Vec<u8>, e: E)
    ensures
        loaded_secret(Err::<Vec<u8>, E>(e)) == Err::<Seq<u8>, LoadError<E>>(LoadError::Read(e)),
        (forall|i: int| 0 <= i < text@.len() ==> is_hex_digit(#[trigger] text@[i])) ==> match (
            loaded_secret(Ok::<Vec<u8>, E>(text))
        ) {
            Ok(secret) => text@.len() == 64 && secret.len() == 32,
            Err(LoadError::Hex) => text@.len() % 2 == 1,
            Err(LoadError::BadKey) => text@.len() % 2 == 0 && text@.len() != 64,
            Err(LoadError::Read(_)) => false,
        },
        (exists|i: int| 0 <= i < text@.len() && !is_hex_digit(#[trigger] text@[i]))
            ==> loaded_secret(Ok::<Vec<u8>, E>(text)) == Err::<Seq<u8>, LoadError<E>>(
            LoadError::Hex,
        ),
{
    assert forall|c: u8| is_hex_digit(c) <==> #[trigger] digit_value(c) is Some by {}
    if forall|i: int| 0 <= i < text@.len() ==> is_hex_digit(#[trigger] text@[i]) {
        assert(forall|i: int|
            0 <= i < text@.len() ==> digit_value(#[trigger] text@[i]) is Some);
    }
    if exists|i: int| 0 <= i < text@.len() && !is_hex_digit(#[trigger] text@[i]) {
        let i = choose|i: int| 0 <= i < text@.len() && !is_hex_digit(#[trigger] text@[i]);
        assert(digit_value(text@[i]) is None);
    }
}

/// Two different secret keys are never written as the same text, and what is written has two
/// digits for each byte.
pub proof fn saved_keys_tell_secrets_apart(a: Seq<u8>, b: Seq<u8>, text: Seq<u8>)
    requires
        is_saved_key(text, a),
        is_saved_key(text, b),
    ensures
        a == b,
        text.len() == 64,
        a.len() == 32,
{
    hex_round_trip(a);
    hex_round_trip(b);
}

/// The identity of a peer holds the encoding of a short key as it is, behind a 0 and its
/// length, and the digest of a long one, behind an 18 and a 32.
pub proof fn identities_hold_the_key(encoding: Seq<u8>)
    ensures
        ({
            let id = key_peer_id(encoding);
            &&& encoding.len() <= 42 ==> id[0] == 0 && id[1] == encoding.len() && id.skip(2)
                == encoding
            &&& encoding.len() > 42 ==> id[0] == 18 && id[1] == 32 && id.skip(2) == sha2_256(
                encoding,
            )
        }),
{
    let id = key_peer_id(encoding);
    if encoding.len() <= 42 {
        assert(id.skip(2) =~= encoding);
    } else {
        assert(id.skip(2) =~= sha2_256(encoding));
    }
}

/// The hexadecimal text for bytes stands for these bytes.
pub proof fn hex_round_trip(b: Seq<u8>)
    ensures
        hex_bytes(hex_text(b)) == Some(b),
{
    let text = hex_text(b);
    assert forall|i: int| 0 <= i < text.len() implies digit_value(#[trigger] text[i]) is Some by {}
    assert forall|i: int| 0 <= i < b.len() implies (16 * digit_value(text[2 * i])->0 + digit_value(
        text[2 * i + 1],
    )->0) as u8 == b[i] by {
        assert((2 * i) / 2 == i && (2 * i) % 2 == 0);
        assert((2 * i + 1) / 2 == i && (2 * i + 1) % 2 == 1);
        assert(digit_value(text[2 * i])->0 == b[i] / 16);
        assert(digit_value(text[2 * i + 1])->0 == b[i] % 16);
    }
    assert(text.len() / 2 == b.len());
    assert(hex_bytes(text)->0 =~= b);
}

/// A key that was written to the file loads, and is the same key.
pub proof fn saved_keys_load<E>(text: Vec<u8>, secret: Seq<u8>)
    requires
        is_saved_key(text@, secret),
    ensures
        loaded_secret(Ok::<Vec<u8>, E>(text)) == Ok::<Seq<u8>, LoadError<E>>(secret),
{
    hex_round_trip(secret);
}

} // verus!
