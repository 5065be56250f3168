//! Peers, their addresses, and the connections to them.
use crate::octets::{copy_bytes, same_bytes};
use crate::wire::{low_u32, read_varint};
use vstd::prelude::*;

verus! {

/// Whether a byte string is the identity of a peer: a multihash that says how its
/// digest was made (0 for not at all, 18 for SHA2-256), how long it is, and what
/// it is.
pub open spec fn is_peer_id(b: Seq<u8>) -> bool {
    &&& b.len() >= 2
    &&& b.len() == 2 + b[1]
    &&& (b[0] == 0 && b[1] <= 42) || (b[0] == 18 && b[1] <= 64)
}

/// The identity of a peer: the bytes of the multihash of its public key.
#[derive(Debug)]
pub struct PeerId {
    bytes: Vec<u8>,
}

impl View for PeerId {
    type V = Seq<u8>;

    closed spec fn view(&self) -> Seq<u8> {
        self.bytes@
    }
}

impl Clone for PeerId {
    fn clone(&self) -> (copy: PeerId)
        ensures
            copy@ == self@,
    {
        proof {
            use_type_invariant(self);
        }
        PeerId { bytes: copy_bytes(self.bytes.as_slice()) }
    }
}

impl PeerId {
    #[verifier::type_invariant]
    spec fn inv(self) -> bool {
        is_peer_id(self.bytes@)
    }

    /// The identity with these bytes, if they are those of one.
    pub fn from_bytes(bytes: Vec<u8>) -> (r: Option<PeerId>)
        ensures
            match r {
                Some(id) => is_peer_id(bytes@) && id@ == bytes@,
                None => !is_peer_id(bytes@),
            },
    {
        if bytes.len() < 2 || bytes.len() != 2 + bytes[1] as usize {
            return None;
        }
        if (bytes[0] == 0 && bytes[1] <= 42) || (bytes[0] == 18 && bytes[1] <= 64) {
            Some(PeerId { bytes })
        } else {
            None
        }
    }

    /// The bytes of the identity.
    pub fn as_bytes(&self) -> (bytes: &[u8])
        ensures
            bytes@ == self@,
            is_peer_id(bytes@),
    {
        proof {
            use_type_invariant(self);
        }
        self.bytes.as_slice()
    }

    /// Whether two identities are the same.
    pub fn same(&self, other: &PeerId) -> (same: bool)
        ensures
            same == (self@ == other@),
    {
        same_bytes(self.bytes.as_slice(), other.bytes.as_slice())
    }
}

/// Whether `libp2p::Multiaddr::try_from` takes a byte string for an address: it is
/// made of components of the kinds that the crate knows.
pub uninterp spec fn is_address(b: Seq<u8>) -> bool;

/// The component that says which peer is at an address.
pub open spec fn p2p_component(id: Seq<u8>) -> Seq<u8> {
    seq![0xa5u8, 0x03u8, id.len() as u8] + id
}

/// The first component of an address, as far as its kind matters.
#[derive(Debug, Clone, Copy, PartialEq, Eq)]
pub enum Protocol {
    Ip4([u8; 4]),
    Ip6([u8; 16]),
    Dns,
    Dns4,
    Dns6,
    /// A component of another kind.
    Other,
}

/// What a first component stands for.
pub enum ProtocolView {
    Ip4(Seq<u8>),
    Ip6(Seq<u8>),
    Dns,
    Dns4,
    Dns6,
    Other,
}

impl View for Protocol {
    type V = ProtocolView;

    open spec fn view(&self) -> ProtocolView {
        match *self {
            Protocol::Ip4(octets) => ProtocolView::Ip4(octets@),
            Protocol::Ip6(octets) => ProtocolView::Ip6(octets@),
            Protocol::Dns => ProtocolView::Dns,
            Protocol::Dns4 => ProtocolView::Dns4,
            Protocol::Dns6 => ProtocolView::Dns6,
            Protocol::Other => ProtocolView::Other,
        }
    }
}

/// The code at the front of an address, which tells the kind of its first component, and
/// how many bytes it takes: a varint of at most five bytes, of which 32 bits count.
pub open spec fn component_code(b: Seq<u8>) -> Option<(nat, nat)> {
    match read_varint(b, 5) {
        Some((v, n)) => Some((low_u32(v), n)),
        None => None,
    }
}

/// The first component of an address: the code at the front tells its kind, and the
/// octets of an IP address follow the code.
pub open spec fn first_component(b: Seq<u8>) -> Option<ProtocolView> {
    if b.len() == 0 {
        None
    } else {
        match component_code(b) {
            Some((code, n)) => Some(
                if code == 4 {
                    ProtocolView::Ip4(b.subrange(n as int, n as int + 4))
                } else if code == 41 {
                    ProtocolView::Ip6(b.subrange(n as int, n as int + 16))
                } else if code == 53 {
                    ProtocolView::Dns
                } else if code == 54 {
                    ProtocolView::Dns4
                } else if code == 55 {
                    ProtocolView::Dns6
                } else {
                    ProtocolView::Other
                },
            ),
            None => Some(ProtocolView::Other),
        }
    }
}

/// `libp2p::Multiaddr::try_from` of bytes: it succeeds where they are those of an
/// address.
#[verifier::external_body]
fn address_parses(bytes: &Vec<u8>) -> (r: bool)
    ensures
        r == is_address(bytes@),
{
    <libp2p::Multiaddr as std::convert::TryFrom<Vec<u8>>>::try_from(bytes.clone()).is_ok()
}

/// `libp2p::Multiaddr::with` of a component of the kind `P2p`: the encoding of the
/// component is appended, and the result is an address again.
#[verifier::external_body]
fn address_with_peer(bytes: &Vec<u8>, id: &[u8]) -> (r: Vec<u8>)
    requires
        is_address(bytes@),
        is_peer_id(id@),
    ensures
        r@ == bytes@ + p2p_component(id@),
        is_address(r@),
{
    let address = <libp2p::Multiaddr as std::convert::TryFrom<Vec<u8>>>::try_from(bytes.clone());
    let peer = libp2p::PeerId::from_bytes(id).unwrap();
    address.unwrap().with(libp2p::multiaddr::Protocol::P2p(peer.into())).to_vec()
}

/// The first item of `libp2p::Multiaddr::iter`. The code of a component comes first in its
/// encoding, as a varint of at most five bytes that is read into 32 bits, and the octets
/// of an IP address follow it.
#[verifier::external_body]
fn address_first(bytes: &Vec<u8>) -> (r: Option<Protocol>)
    requires
        is_address(bytes@),
    ensures
        match r {
            Some(component) => first_component(bytes@) == Some(component@),
            None => first_component(bytes@) is None,
        },
{
    let address = <libp2p::Multiaddr as std::convert::TryFrom<Vec<u8>>>::try_from(bytes.clone());
    let first = address.as_ref().unwrap().iter().next()?;
    Some(match first {
        libp2p::multiaddr::Protocol::Ip4(ip) => Protocol::Ip4(ip.octets()),
        libp2p::multiaddr::Protocol::Ip6(ip) => Protocol::Ip6(ip.octets()),
        libp2p::multiaddr::Protocol::Dns(_) => Protocol::Dns,
        libp2p::multiaddr::Protocol::Dns4(_) => Protocol::Dns4,
        libp2p::multiaddr::Protocol::Dns6(_) => Protocol::Dns6,
        _ => Protocol::Other,
    })
}

/// An address: the encodings of its components, the outermost first.
#[derive(Debug)]
pub struct Multiaddr {
    bytes: Vec<u8>,
}

impl View for Multiaddr {
    type V = Seq<u8>;

    closed spec fn view(&self) -> Seq<u8> {
        self.bytes@
    }
}

impl Clone for Multiaddr {
    fn clone(&self) -> (copy: Multiaddr)
        ensures
            copy@ == self@,
    {
        proof {
            use_type_invariant(self);
        }
        Multiaddr { bytes: copy_bytes(self.bytes.as_slice()) }
    }
}

impl Multiaddr {
    #[verifier::type_invariant]
    spec fn inv(self) -> bool {
        is_address(self.bytes@)
    }

    /// The address with these bytes, if they are those of one.
    pub fn from_bytes(bytes: Vec<u8>) -> (r: Option<Multiaddr>)
        ensures
            match r {
                Some(address) => is_address(bytes@) && address@ == bytes@,
                None => !is_address(bytes@),
            },
    {
        if address_parses(&bytes) {
            Some(Multiaddr { bytes })
        } else {
            None
        }
    }

    /// The bytes of the address.
    pub fn as_bytes(&self) -> (bytes: &[u8])
        ensures
            bytes@ == self@,
            is_address(bytes@),
    {
        proof {
            use_type_invariant(self);
        }
        self.bytes.as_slice()
    }

    /// The address with one more component, the peer that is there.
    pub fn with_peer(&self, id: &PeerId) -> (longer: Multiaddr)
        ensures
            longer@ == self@ + p2p_component(id@),
    {
        proof {
            use_type_invariant(self);
        }
        Multiaddr { bytes: address_with_peer(&self.bytes, id.as_bytes()) }
    }

    /// The first component of the address.
    pub fn first(&self) -> (component: Option<Protocol>)
        ensures
            match component {
                Some(component) => first_component(self@) == Some(component@),
                None => first_component(self@) is None,
            },
    {
        proof {
            use_type_invariant(self);
        }
        address_first(&self.bytes)
    }

    /// Whether two addresses are the same.
    pub fn same(&self, other: &Multiaddr) -> (same: bool)
        ensures
            same == (self@ == other@),
    {
        same_bytes(self.bytes.as_slice(), other.bytes.as_slice())
    }
}

/// The addresses that a list of them stands for.
pub open spec fn address_views(list: Seq<Multiaddr>) -> Seq<Seq<u8>> {
    Seq::new(list.len(), |i: int| list[i]@)
}

/// The two ends of a connection, and which side opened it.
#[derive(Debug)]
pub enum ConnectedPoint {
    Dialer { address: Multiaddr },
    Listener { local_addr: Multiaddr, send_back_addr: Multiaddr },
}

/// What the ends of a connection stand for.
pub enum ConnectedPointView {
    Dialer { address: Seq<u8> },
    Listener { local_addr: Seq<u8>, send_back_addr: Seq<u8> },
}

impl View for ConnectedPoint {
    type V = ConnectedPointView;

    open spec fn view(&self) -> ConnectedPointView {
        match *self {
            ConnectedPoint::Dialer { address } => ConnectedPointView::Dialer {
                address: address@,
            },
            ConnectedPoint::Listener { local_addr, send_back_addr } => {
                ConnectedPointView::Listener {
                    local_addr: local_addr@,
                    send_back_addr: send_back_addr@,
                }
            },
        }
    }
}

impl Clone for ConnectedPoint {
    fn clone(&self) -> (copy: ConnectedPoint)
        ensures
            copy@ == self@,
    {
        match self {
            ConnectedPoint::Dialer { address } => ConnectedPoint::Dialer {
                address: address.clone(),
            },
            ConnectedPoint::Listener { local_addr, send_back_addr } => ConnectedPoint::Listener {
                local_addr: local_addr.clone(),
                send_back_addr: send_back_addr.clone(),
            },
        }
    }
}

impl ConnectedPoint {
    /// Whether two connections have the same ends.
    pub fn same(&self, other: &ConnectedPoint) -> (same: bool)
        ensures
            same == (self@ == other@),
    {
        match (self, other) {
            (
                ConnectedPoint::Dialer { address: a },
                ConnectedPoint::Dialer { address: b },
            ) => a.same(b),
            (
                ConnectedPoint::Listener { local_addr: a, send_back_addr: c },
                ConnectedPoint::Listener { local_addr: b, send_back_addr: d },
            ) => a.same(b) && c.same(d),
            _ => false,
        }
    }

    /// Whether two connections differ in an end.
    pub fn differs(&self, other: &ConnectedPoint) -> (differs: bool)
        ensures
            differs == (self@ != other@),
    {
        !self.same(other)
    }
}

/// An identity is a digest behind the two bytes that say how it was made and how long it
/// is: at most 42 bytes as they are, or at most 64 bytes of a SHA2-256 digest.
pub proof fn identities_hold_their_digest(b: Seq<u8>, digest: Seq<u8>)
    ensures
        is_peer_id(b) ==> (b[0] == 0 || b[0] == 18) && b.skip(2).len() == b[1] && b.len() >= 2,
        digest.len() <= u8::MAX ==> (is_peer_id(seq![0u8, digest.len() as u8] + digest)
            <==> digest.len() <= 42),
        digest.len() <= u8::MAX ==> (is_peer_id(seq![18u8, digest.len() as u8] + digest)
            <==> digest.len() <= 64),
{
}

/// An address with a peer behind it still begins with the address, and ends with the peer.
pub proof fn addresses_keep_their_parts(address: Seq<u8>, id: Seq<u8>)
    requires
        is_peer_id(id),
    ensures
        ({
            let longer = address + p2p_component(id);
            &&& longer.take(address.len() as int) == address
            &&& longer.skip(address.len() as int + 3) == id
            &&& longer[address.len() as int] == 0xa5
            &&& longer[address.len() as int + 1] == 3
            &&& longer[address.len() as int + 2] == id.len()
        }),
{
    let longer = address + p2p_component(id);
    assert(longer.take(address.len() as int) =~= address);
    assert(longer.skip(address.len() as int + 3) =~= id);
}

/// A code of one byte tells the kind of the first component: 4 and 41 are IP addresses, whose
/// octets follow, and 53, 54 and 55 are names.
pub proof fn short_codes_tell_the_component(b: Seq<u8>)
    requires
        b.len() > 0,
        b[0] < 128,
    ensures
        b[0] == 4 <==> first_component(b) == Some(ProtocolView::Ip4(b.subrange(1, 5))),
        b[0] == 41 <==> first_component(b) == Some(ProtocolView::Ip6(b.subrange(1, 17))),
        b[0] == 53 <==> first_component(b) == Some(ProtocolView::Dns),
        b[0] == 54 <==> first_component(b) == Some(ProtocolView::Dns4),
        b[0] == 55 <==> first_component(b) == Some(ProtocolView::Dns6),
        b[0] != 4 && b[0] != 41 && b[0] != 53 && b[0] != 54 && b[0] != 55 <==> first_component(b)
            == Some(ProtocolView::Other),
{
}

/// Whatever stands behind the code, a code of five bytes counts modulo two to the 32nd.
pub proof fn long_codes_count_their_low_bits(b: Seq<u8>)
    requires
        b.len() >= 5,
        b[0] >= 128 && b[1] >= 128 && b[2] >= 128 && b[3] >= 128 && b[4] < 128,
    ensures
        ({
            let sum = (b[0] - 128) + 128 * (b[1] - 128) + 16384 * (b[2] - 128) + 2097152 * (b[3]
                - 128) + 268435456 * b[4];
            &&& sum % 0x1_0000_0000 == 4 <==> first_component(b) == Some(
                ProtocolView::Ip4(b.subrange(5, 9)),
            )
            &&& sum % 0x1_0000_0000 == 41 <==> first_component(b) == Some(
                ProtocolView::Ip6(b.subrange(5, 21)),
            )
            &&& sum % 0x1_0000_0000 == 53 <==> first_component(b) == Some(ProtocolView::Dns)
        }),
{
    reveal_with_fuel(read_varint, 6);
    let b1 = b.skip(1);
    let b2 = b1.skip(1);
    let b3 = b2.skip(1);
    let b4 = b3.skip(1);
    assert(b1[0] == b[1] && b2[0] == b[2] && b3[0] == b[3] && b4[0] == b[4]);
    assert(read_varint(b4, 1) == Some((b[4] as nat, 1nat)));
}

/// Two connections are the same only where the same side opened them and all their ends are
/// the same.
pub proof fn connections_differ_in_any_end(a: ConnectedPoint, b: ConnectedPoint)
    ensures
        a@ == b@ <==> match (a, b) {
            (
                ConnectedPoint::Dialer { address: x },
                ConnectedPoint::Dialer { address: y },
            ) => x@ == y@,
            (
                ConnectedPoint::Listener { local_addr: x, send_back_addr: v },
                ConnectedPoint::Listener { local_addr: y, send_back_addr: w },
            ) => x@ == y@ && v@ == w@,
            _ => false,
        },
{
}

/// A code that has not ended within five bytes is none, and the address has no component
/// that can be told.
pub proof fn codes_end_within_five_bytes(b: Seq<u8>)
    requires
        b.len() >= 5,
        b[0] >= 128 && b[1] >= 128 && b[2] >= 128 && b[3] >= 128 && b[4] >= 128,
    ensures
        component_code(b) is None,
{
    reveal_with_fuel(read_varint, 6);
    let b1 = b.skip(1);
    let b2 = b1.skip(1);
    let b3 = b2.skip(1);
    let b4 = b3.skip(1);
    assert(b1[0] == b[1] && b2[0] == b[2] && b3[0] == b[3] && b4[0] == b[4]);
}

} // verus!
