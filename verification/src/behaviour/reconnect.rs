//! What is known of the peers: how to reach them, what they run, and how far away
//! they are.
use crate::behaviour::polled::Polled;
use crate::node_keys::identity_key::key_encoding;
use crate::octets::copy_bytes;
use crate::peer::{ConnectedPoint, ConnectedPointView, Multiaddr, PeerId};
use crate::time::{later, secs, Duration, Instant};
use vstd::prelude::*;

verus! {

/// For how long what is known of a peer is kept after the last connection to it.
pub const CACHE_EXPIRE_SECS: u64 = 10 * 60;

/// How often what is known of peers is looked through for what was kept long enough.
pub const GARBAGE_COLLECT_INTERVAL_SECS: u64 = 2 * 60;

/// The ends of the connections to a peer, of which two are held in place.
#[verifier::external_body]
#[derive(Debug)]
pub struct Endpoints(smallvec::SmallVec<[ConnectedPoint; 2]>);

/// The ends of connections that a `smallvec::SmallVec` holds, in order.
pub uninterp spec fn endpoint_list(endpoints: Endpoints) -> Seq<ConnectedPointView>;

/// `smallvec::SmallVec::new`: holds nothing.
#[verifier::external_body]
fn no_endpoints() -> (endpoints: Endpoints)
    ensures
        endpoint_list(endpoints) == Seq::<ConnectedPointView>::empty(),
{
    Endpoints(smallvec::SmallVec::new())
}

/// `smallvec::SmallVec::push`: appends one item.
#[verifier::external_body]
fn push_endpoint(endpoints: &mut Endpoints, endpoint: ConnectedPoint)
    ensures
        endpoint_list(*final(endpoints)) == endpoint_list(*old(endpoints)).push(endpoint@),
{
    endpoints.0.push(endpoint);
}

/// `smallvec::SmallVec::retain`: keeps the items that differ from one, in order.
#[verifier::external_body]
fn retain_others(endpoints: &mut Endpoints, endpoint: &ConnectedPoint)
    ensures
        endpoint_list(*final(endpoints)) == endpoint_list(*old(endpoints)).filter(
            |other: ConnectedPointView| other != endpoint@,
        ),
{
    endpoints.0.retain(|other| other.differs(endpoint));
}

/// `smallvec::SmallVec::first`: the first item, if there is one.
#[verifier::external_body]
fn first_endpoint(endpoints: &Endpoints) -> (first: Option<&ConnectedPoint>)
    ensures
        match first {
            Some(endpoint) => endpoint_list(*endpoints).len() > 0 && endpoint@ == endpoint_list(
                *endpoints,
            )[0],
            None => endpoint_list(*endpoints).len() == 0,
        },
{
    endpoints.0.first()
}

/// What is known of a peer.
#[derive(Debug)]
pub struct PingInfo {
    /// Until when this is kept, where there is no connection to the peer.
    pub info_expire: Option<Instant>,
    /// The ends of the connections to the peer, the oldest first.
    pub endpoints: Endpoints,
    /// What the peer runs.
    pub client_version: Option<String>,
    /// How long the last ping took.
    pub latest_ping: Option<Duration>,
}

/// What such knowledge stands for.
#[verifier::ext_equal]
pub struct PingInfoView {
    pub info_expire: Option<Instant>,
    pub endpoints: Seq<ConnectedPointView>,
    pub client_version: Option<Seq<char>>,
    pub latest_ping: Option<Duration>,
}

/// The text that is there, if there is one.
pub open spec fn optional_text(text: Option<String>) -> Option<Seq<char>> {
    match text {
        Some(s) => Some(s@),
        None => None,
    }
}

impl View for PingInfo {
    type V = PingInfoView;

    open spec fn view(&self) -> PingInfoView {
        PingInfoView {
            info_expire: self.info_expire,
            endpoints: endpoint_list(self.endpoints),
            client_version: optional_text(self.client_version),
            latest_ping: self.latest_ping,
        }
    }
}

/// What is known of a peer when it is first connected.
pub open spec fn first_info(endpoint: ConnectedPointView) -> PingInfoView {
    PingInfoView {
        info_expire: None,
        endpoints: seq![endpoint],
        client_version: None,
        latest_ping: None,
    }
}

/// What is known of a peer when it is connected once more: what was kept too long is
/// forgotten.
pub open spec fn connected_again(
    info: PingInfoView,
    endpoint: ConnectedPointView,
    now: Instant,
) -> PingInfoView {
    let stale = !is_current(info, now);
    PingInfoView {
        info_expire: None,
        endpoints: info.endpoints.push(endpoint),
        client_version: if stale {
            None
        } else {
            info.client_version
        },
        latest_ping: if stale {
            None
        } else {
            info.latest_ping
        },
    }
}

/// Whether what is known of a peer is to be kept.
pub open spec fn is_current(info: PingInfoView, now: Instant) -> bool {
    info.info_expire matches Some(expire) ==> expire.nanos >= now.nanos
}

impl PingInfo {
    /// What is known of a peer when it is first connected.
    pub fn new(endpoint: ConnectedPoint) -> (info: PingInfo)
        ensures
            info@ == first_info(endpoint@),
    {
        let mut endpoints = no_endpoints();
        push_endpoint(&mut endpoints, endpoint);
        let info = PingInfo {
            info_expire: None,
            endpoints,
            client_version: None,
            latest_ping: None,
        };
        assert(info@.endpoints =~= seq![endpoint@]);
        info
    }

    /// Whether what is known of the peer is to be kept.
    pub fn current(&self, now: Instant) -> (r: bool)
        ensures
            r == is_current(self@, now),
    {
        match self.info_expire {
            Some(expire) => expire.nanos >= now.nanos,
            None => true,
        }
    }
}

/// The hasher of `fnv`, carried as it comes.
#[verifier::external_type_specification]
#[verifier::external_body]
pub struct ExFnvHasher(fnv::FnvHasher);

/// What makes the hashers of a map, carried as it comes.
#[verifier::external_type_specification]
#[verifier::external_body]
#[verifier::reject_recursive_types(H)]
pub struct ExBuildHasherDefault<H>(std::hash::BuildHasherDefault<H>);

/// What is known of each peer, by the bytes of its identity.
pub type NodesInfo = fnv::FnvHashMap<Vec<u8>, PingInfo>;

/// What a `fnv::FnvHashMap` holds.
pub uninterp spec fn nodes_view(nodes: NodesInfo) -> Map<Seq<u8>, PingInfoView>;

/// `default` of `fnv::FnvHashMap`: holds nothing.
#[verifier::external_body]
fn no_nodes() -> (nodes: NodesInfo)
    ensures
        (nodes_view(nodes) == Map::<Seq<u8>, PingInfoView>::empty()),
{
    fnv::FnvHashMap::default()
}

/// `get` of `fnv::FnvHashMap`: the value under a key.
#[verifier::external_body]
fn get_node<'a>(nodes: &'a NodesInfo, key: &[u8]) -> (r: Option<&'a PingInfo>)
    ensures
        match r {
            Some(info) => nodes_view(*nodes).contains_key(key@) && nodes_view(*nodes)[key@]
                == info@,
            None => !nodes_view(*nodes).contains_key(key@),
        },
{
    nodes.get(key)
}

/// `get_mut` of `fnv::FnvHashMap`: the value under a key, which can be changed in its
/// place.
#[verifier::external_body]
fn get_node_mut<'a>(nodes: &'a mut NodesInfo, key: &[u8]) -> (r: Option<&'a mut PingInfo>)
    ensures
        match r {
            Some(info) => nodes_view(*old(nodes)).contains_key(key@) && nodes_view(
                *old(nodes),
            )[key@] == info@ && nodes_view(*final(nodes)) == nodes_view(*old(nodes)).insert(
                key@,
                final(info)@,
            ),
            None => !nodes_view(*old(nodes)).contains_key(key@) && nodes_view(*final(nodes))
                == nodes_view(*old(nodes)),
        },
{
    nodes.get_mut(key)
}

/// `insert` of `fnv::FnvHashMap`: puts a value under a key.
#[verifier::external_body]
fn insert_node(nodes: &mut NodesInfo, key: Vec<u8>, info: PingInfo)
    ensures
        nodes_view(*final(nodes)) == nodes_view(*old(nodes)).insert(key@, info@),
{
    nodes.insert(key, info);
}

/// `retain` of `fnv::FnvHashMap`: keeps the values that are still to be kept, under
/// their keys.
#[verifier::external_body]
fn retain_current(nodes: &mut NodesInfo, now: Instant)
    ensures
        nodes_view(*final(nodes)) == current_nodes(nodes_view(*old(nodes)), now),
{
    nodes.retain(|_, info| info.current(now));
}

/// What is to be kept of what is known of the peers.
pub open spec fn current_nodes(nodes: Map<Seq<u8>, PingInfoView>, now: Instant) -> Map<
    Seq<u8>,
    PingInfoView,
> {
    nodes.restrict(nodes.dom().filter(|id: Seq<u8>| is_current(nodes[id], now)))
}

/// The ping behaviour of `libp2p`, carried as it comes.
#[verifier::external_type_specification]
#[verifier::external_body]
pub struct ExPing(libp2p::ping::Ping);

/// The identify behaviour of `libp2p`, carried as it comes.
#[verifier::external_type_specification]
#[verifier::external_body]
pub struct ExIdentify(libp2p::identify::Identify);

/// What the node says of itself.
pub struct IdentifyView {
    pub protocol_version: Seq<char>,
    pub agent_version: Seq<char>,
    /// The encoding of its public key.
    pub public_key: Seq<u8>,
}

/// What a `libp2p::identify::Identify` says of the node.
pub uninterp spec fn identify_view(identify: libp2p::identify::Identify) -> IdentifyView;

/// `libp2p::ping::Ping::new` with the settings of `PingConfig::new`. The node reads
/// nothing of it, so nothing is said of it.
#[verifier::external_body]
fn new_ping() -> libp2p::ping::Ping {
    libp2p::ping::Ping::new(libp2p::ping::PingConfig::new())
}

/// `libp2p::identify::Identify::new`: says of the node what it is configured to.
#[verifier::external_body]
fn new_identify(
    protocol_version: String,
    agent_version: String,
    key: libp2p::core::PublicKey,
) -> (identify: libp2p::identify::Identify)
    ensures
        identify_view(identify) == (IdentifyView {
            protocol_version: protocol_version@,
            agent_version: agent_version@,
            public_key: key_encoding(key),
        }),
{
    let config = libp2p::identify::IdentifyConfig::new(protocol_version, key);
    libp2p::identify::Identify::new(config.with_agent_version(agent_version))
}

/// What a peer says of itself.
#[derive(Debug)]
pub struct IdentifyInfo {
    /// The encoding of its public key.
    pub public_key: Vec<u8>,
    pub protocol_version: String,
    /// What it runs.
    pub agent_version: String,
    pub listen_addrs: Vec<Multiaddr>,
    pub protocols: Vec<String>,
    /// The address under which it reached, or was reached by, the node.
    pub observed_addr: Multiaddr,
}

/// What is told to the node.
#[allow(non_camel_case_types)]
#[derive(Debug)]
pub enum ioPingEvent {
    /// A peer said something of itself.
    Identified { peer_id: PeerId, info: IdentifyInfo },
}

/// How a ping ended.
#[derive(Debug)]
pub enum PingResult {
    /// A ping was answered after some time.
    Ping { rtt: Duration },
    /// A ping of the peer was answered.
    Pong,
    /// A ping was not answered.
    Failed,
}

/// What the ping behaviour reports.
#[derive(Debug)]
pub struct PingReport {
    pub peer: PeerId,
    pub result: PingResult,
}

/// What the identify behaviour reports.
#[derive(Debug)]
pub enum IdentifyEvent {
    /// A peer said something of itself.
    Received { peer_id: PeerId, info: IdentifyInfo },
    /// A peer was told something of the node.
    Sent { peer_id: PeerId },
    /// It could not be learnt what a peer says of itself.
    Failed { peer_id: PeerId },
}

/// One of the two behaviours that are looked at.
#[derive(Debug, Clone, Copy, PartialEq, Eq, Structural)]
pub enum Part {
    Ping,
    Identify,
}

/// What is to be done next.
#[derive(Debug)]
pub enum PingStep<P> {
    /// Tell the node.
    Event(ioPingEvent),
    /// Carry out an action that one of the behaviours asks for.
    Forward { part: Part, action: P },
    /// Look at the ping behaviour.
    PollPing,
    /// Look at the identify behaviour.
    PollIdentify,
    /// Look at the timer for what was kept long enough.
    CollectGarbage,
}

/// What is known of the peers.
pub struct PingBehaviour {
    ping: libp2p::ping::Ping,
    identify: libp2p::identify::Identify,
    nodes_info: NodesInfo,
    garbage_collect: Option<Instant>,
}

/// What that knowledge stands for.
pub struct PingView {
    /// The ping behaviour, of which the node reads nothing.
    pub ping: libp2p::ping::Ping,
    /// What the node says of itself.
    pub identify: IdentifyView,
    /// What is known of each peer.
    pub nodes: Map<Seq<u8>, PingInfoView>,
    /// When it is next looked for what was kept long enough; not set before the timer
    /// was first looked at.
    pub garbage_collect: Option<Instant>,
}

impl View for PingBehaviour {
    type V = PingView;

    closed spec fn view(&self) -> PingView {
        PingView {
            ping: self.ping,
            identify: identify_view(self.identify),
            nodes: nodes_view(self.nodes_info),
            garbage_collect: self.garbage_collect,
        }
    }
}

/// What is known of a peer, as far as the node asks for it.
#[derive(Debug)]
pub struct Node<'a> {
    info: &'a PingInfo,
}

impl<'a> View for Node<'a> {
    type V = PingInfoView;

    closed spec fn view(&self) -> PingInfoView {
        self.info@
    }
}

impl<'a> Node<'a> {
    /// Whether there is a connection to the peer.
    pub fn is_connected(&self) -> (r: bool)
        ensures
            r == (self@.endpoints.len() > 0),
    {
        first_endpoint(&self.info.endpoints).is_some()
    }

    /// The ends of the oldest connection to the peer.
    pub fn endpoint(&self) -> (endpoint: &'a ConnectedPoint)
        requires
            self@.endpoints.len() > 0,
        ensures
            endpoint@ == self@.endpoints[0],
    {
        match first_endpoint(&self.info.endpoints) {
            Some(endpoint) => endpoint,
            None => vstd::pervasive::unreached(),
        }
    }

    /// What the peer runs, if it has said so.
    pub fn client_version(&self) -> (version: Option<&'a str>)
        ensures
            match version {
                Some(text) => self@.client_version == Some(text@),
                None => self@.client_version is None,
            },
    {
        match &self.info.client_version {
            Some(version) => Some(version.as_str()),
            None => None,
        }
    }

    /// How long the last ping took, if there was one.
    pub fn latest_ping(&self) -> (time: Option<Duration>)
        ensures
            time == self@.latest_ping,
    {
        self.info.latest_ping
    }
}

/// The knowledge after one more ping was answered.
pub open spec fn with_ping(nodes: Map<Seq<u8>, PingInfoView>, peer: Seq<u8>, rtt: Duration) -> Map<
    Seq<u8>,
    PingInfoView,
> {
    if nodes.contains_key(peer) {
        nodes.insert(peer, PingInfoView { latest_ping: Some(rtt), ..nodes[peer] })
    } else {
        nodes
    }
}

/// The knowledge after a peer said what it runs.
pub open spec fn with_version(
    nodes: Map<Seq<u8>, PingInfoView>,
    peer: Seq<u8>,
    version: Seq<char>,
) -> Map<Seq<u8>, PingInfoView> {
    if nodes.contains_key(peer) {
        nodes.insert(peer, PingInfoView { client_version: Some(version), ..nodes[peer] })
    } else {
        nodes
    }
}

/// The knowledge after a connection to a peer was established.
pub open spec fn with_connection(
    nodes: Map<Seq<u8>, PingInfoView>,
    peer: Seq<u8>,
    endpoint: ConnectedPointView,
    now: Instant,
) -> Map<Seq<u8>, PingInfoView> {
    nodes.insert(
        peer,
        if nodes.contains_key(peer) {
            connected_again(nodes[peer], endpoint, now)
        } else {
            first_info(endpoint)
        },
    )
}

/// Which connections have other ends than one.
pub open spec fn is_other(endpoint: ConnectedPointView) -> spec_fn(ConnectedPointView) -> bool {
    |other: ConnectedPointView| other != endpoint
}

/// The knowledge after a connection to a peer was closed: every connection with the
/// same ends is gone.
pub open spec fn without_connection(
    nodes: Map<Seq<u8>, PingInfoView>,
    peer: Seq<u8>,
    endpoint: ConnectedPointView,
) -> Map<Seq<u8>, PingInfoView> {
    if nodes.contains_key(peer) {
        nodes.insert(
            peer,
            PingInfoView {
                endpoints: nodes[peer].endpoints.filter(is_other(endpoint)),
                ..nodes[peer]
            },
        )
    } else {
        nodes
    }
}

/// The knowledge after the last connection to a peer was lost: it is kept for some
/// time.
pub open spec fn disconnected(
    nodes: Map<Seq<u8>, PingInfoView>,
    peer: Seq<u8>,
    now: Instant,
) -> Map<Seq<u8>, PingInfoView> {
    if nodes.contains_key(peer) {
        let expire = later(now, secs(CACHE_EXPIRE_SECS as nat));
        nodes.insert(peer, PingInfoView { info_expire: Some(expire), ..nodes[peer] })
    } else {
        nodes
    }
}

impl PingBehaviour {
    /// Knows nothing of any peer, and says of the node what it runs and what its key is.
    pub fn new(user_agent: String, local_public_key: libp2p::core::PublicKey) -> (b: PingBehaviour)
        ensures
            b@.identify == (IdentifyView {
                protocol_version: "/substrate/1.0"@,
                agent_version: user_agent@,
                public_key: key_encoding(local_public_key),
            }),
            b@.nodes == Map::<Seq<u8>, PingInfoView>::empty(),
            b@.garbage_collect is None,
    {
        let proto_version = "/substrate/1.0".to_owned();
        PingBehaviour {
            ping: new_ping(),
            identify: new_identify(proto_version, user_agent, local_public_key),
            nodes_info: no_nodes(),
            garbage_collect: None,
        }
    }

    /// The ping behaviour, for the network to drive it.
    pub fn ping_mut(&mut self) -> (ping: &mut libp2p::ping::Ping)
        ensures
            *ping == old(self)@.ping,
            final(self)@ == (PingView { ping: *final(ping), ..old(self)@ }),
    {
        &mut self.ping
    }

    /// The identify behaviour, for the network to drive it.
    pub fn identify_mut(&mut self) -> (identify: &mut libp2p::identify::Identify)
        ensures
            identify_view(*identify) == old(self)@.identify,
            final(self)@ == (PingView { identify: identify_view(*final(identify)), ..old(self)@ }),
    {
        &mut self.identify
    }

    /// What is known of a peer.
    pub fn node(&self, peer_id: &PeerId) -> (node: Option<Node<'_>>)
        ensures
            match node {
                Some(node) => self@.nodes.contains_key(peer_id@) && node@ == self@.nodes[peer_id@],
                None => !self@.nodes.contains_key(peer_id@),
            },
    {
        match get_node(&self.nodes_info, peer_id.as_bytes()) {
            Some(info) => Some(Node { info }),
            None => None,
        }
    }

    /// Takes note of a ping that was answered.
    pub fn handle_ping_report(&mut self, peer_id: &PeerId, ping_time: Duration)
        ensures
            final(self)@ == (PingView {
                nodes: with_ping(old(self)@.nodes, peer_id@, ping_time),
                ..old(self)@
            }),
            final(self)@.nodes.contains_key(peer_id@) <==> old(self)@.nodes.contains_key(peer_id@),
            old(self)@.nodes.contains_key(peer_id@) ==> ({
                let before = old(self)@.nodes[peer_id@];
                let after = final(self)@.nodes[peer_id@];
                &&& after.latest_ping == Some(ping_time)
                &&& after.info_expire == before.info_expire
                &&& after.endpoints == before.endpoints
                &&& after.client_version == before.client_version
            }),
            forall|other: Seq<u8>|
                #![trigger final(self)@.nodes[other]]
                #![trigger final(self)@.nodes.contains_key(other)]
                other != peer_id@ ==> (final(self)@.nodes.contains_key(other) <==> old(
                    self,
                )@.nodes.contains_key(other)) && (old(self)@.nodes.contains_key(other) ==> final(self)@.nodes[other] == old(self)@.nodes[other]),
    {
        if let Some(entry) = get_node_mut(&mut self.nodes_info, peer_id.as_bytes()) {
            entry.latest_ping = Some(ping_time);
        }
    }

    /// Takes note of what a peer runs.
    pub fn handle_identify_report(&mut self, peer_id: &PeerId, info: &IdentifyInfo)
        ensures
            final(self)@ == (PingView {
                nodes: with_version(old(self)@.nodes, peer_id@, info.agent_version@),
                ..old(self)@
            }),
            final(self)@.nodes.contains_key(peer_id@) <==> old(self)@.nodes.contains_key(peer_id@),
            old(self)@.nodes.contains_key(peer_id@) ==> ({
                let before = old(self)@.nodes[peer_id@];
                let after = final(self)@.nodes[peer_id@];
                &&& after.client_version == Some(info.agent_version@)
                &&& after.info_expire == before.info_expire
                &&& after.endpoints == before.endpoints
                &&& after.latest_ping == before.latest_ping
            }),
            forall|other: Seq<u8>|
                #![trigger final(self)@.nodes[other]]
                #![trigger final(self)@.nodes.contains_key(other)]
                other != peer_id@ ==> (final(self)@.nodes.contains_key(other) <==> old(
                    self,
                )@.nodes.contains_key(other)) && (old(self)@.nodes.contains_key(other) ==> final(self)@.nodes[other] == old(self)@.nodes[other]),
    {
        if let Some(entry) = get_node_mut(&mut self.nodes_info, peer_id.as_bytes()) {
            entry.client_version = Some(info.agent_version.clone());
        }
    }

    /// Takes note of a connection that was established.
    pub fn inject_connection_established(
        &mut self,
        peer_id: &PeerId,
        endpoint: &ConnectedPoint,
        now: Instant,
    )
        ensures
            final(self)@ == (PingView {
                nodes: with_connection(old(self)@.nodes, peer_id@, endpoint@, now),
                ..old(self)@
            }),
            final(self)@.nodes.contains_key(peer_id@),
            final(self)@.nodes[peer_id@].info_expire is None,
            final(self)@.nodes[peer_id@].endpoints.len() > 0,
            final(self)@.nodes[peer_id@].endpoints.last() == endpoint@,
            old(self)@.nodes.contains_key(peer_id@) ==> final(self)@.nodes[peer_id@].endpoints.drop_last() == old(self)@.nodes[peer_id@].endpoints,
            forall|other: Seq<u8>|
                #![trigger final(self)@.nodes[other]]
                #![trigger final(self)@.nodes.contains_key(other)]
                other != peer_id@ ==> (final(self)@.nodes.contains_key(other) <==> old(
                    self,
                )@.nodes.contains_key(other)) && (old(self)@.nodes.contains_key(other) ==> final(self)@.nodes[other] == old(self)@.nodes[other]),
    {
        let known = match get_node_mut(&mut self.nodes_info, peer_id.as_bytes()) {
            Some(entry) => {
                if !entry.current(now) {
                    entry.client_version = None;
                    entry.latest_ping = None;
                }
                entry.info_expire = None;
                push_endpoint(&mut entry.endpoints, endpoint.clone());
                true
            },
            None => false,
        };
        if !known {
            insert_node(
                &mut self.nodes_info,
                copy_bytes(peer_id.as_bytes()),
                PingInfo::new(endpoint.clone()),
            );
        }
    }

    /// Takes note of a connection that was closed.
    pub fn inject_connection_closed(&mut self, peer_id: &PeerId, endpoint: &ConnectedPoint)
        ensures
            final(self)@ == (PingView {
                nodes: without_connection(old(self)@.nodes, peer_id@, endpoint@),
                ..old(self)@
            }),
            final(self)@.nodes.contains_key(peer_id@) <==> old(self)@.nodes.contains_key(peer_id@),
            old(self)@.nodes.contains_key(peer_id@) ==> ({
                let before = old(self)@.nodes[peer_id@];
                let after = final(self)@.nodes[peer_id@];
                &&& (forall|other: ConnectedPointView|
                    #[trigger] after.endpoints.contains(other) <==> other != endpoint@
                        && before.endpoints.contains(other))
                &&& after.info_expire == before.info_expire
                &&& after.client_version == before.client_version
                &&& after.latest_ping == before.latest_ping
            }),
            forall|other: Seq<u8>|
                #![trigger final(self)@.nodes[other]]
                #![trigger final(self)@.nodes.contains_key(other)]
                other != peer_id@ ==> (final(self)@.nodes.contains_key(other) <==> old(
                    self,
                )@.nodes.contains_key(other)) && (old(self)@.nodes.contains_key(other) ==> final(self)@.nodes[other] == old(self)@.nodes[other]),
    {
        if let Some(entry) = get_node_mut(&mut self.nodes_info, peer_id.as_bytes()) {
            let ghost list = endpoint_list(entry.endpoints);
            retain_others(&mut entry.endpoints, endpoint);
            let ghost gone = endpoint@;
            assert((|other: ConnectedPointView| other != endpoint@) =~= is_other(gone));
            assert forall|other: ConnectedPointView|
                #[trigger] endpoint_list(entry.endpoints).contains(other) <==> other != endpoint@
                    && list.contains(other) by {
                lemma_others(list, gone, other);
            }
        }
    }

    /// Takes note that the last connection to a peer was lost.
    pub fn inject_disconnected(&mut self, peer_id: &PeerId, now: Instant)
        ensures
            final(self)@ == (PingView {
                nodes: disconnected(old(self)@.nodes, peer_id@, now),
                ..old(self)@
            }),
            final(self)@.nodes.contains_key(peer_id@) <==> old(self)@.nodes.contains_key(peer_id@),
            old(self)@.nodes.contains_key(peer_id@) ==> ({
                let before = old(self)@.nodes[peer_id@];
                let after = final(self)@.nodes[peer_id@];
                &&& (after.info_expire matches Some(expire) && (expire.nanos == now.nanos
                    + 600_000_000_000 || expire.nanos == u128::MAX))
                &&& after.endpoints == before.endpoints
                &&& after.client_version == before.client_version
                &&& after.latest_ping == before.latest_ping
            }),
            forall|other: Seq<u8>|
                #![trigger final(self)@.nodes[other]]
                #![trigger final(self)@.nodes.contains_key(other)]
                other != peer_id@ ==> (final(self)@.nodes.contains_key(other) <==> old(
                    self,
                )@.nodes.contains_key(other)) && (old(self)@.nodes.contains_key(other) ==> final(self)@.nodes[other] == old(self)@.nodes[other]),
    {
        if let Some(entry) = get_node_mut(&mut self.nodes_info, peer_id.as_bytes()) {
            entry.info_expire = Some(now.after(Duration::from_secs(CACHE_EXPIRE_SECS)));
        }
    }

    /// What is to be done next once the ping behaviour was looked at.
    pub fn poll_ping<P>(&mut self, polled: Polled<PingReport, P>) -> (step: PingStep<P>)
        ensures
            match polled {
                Polled::Pending => step is PollIdentify && final(self)@ == old(self)@,
                Polled::Forward(p) => step == (PingStep::<P>::Forward {
                    part: Part::Ping,
                    action: p,
                }) && final(self)@ == old(self)@,
                Polled::Event(report) => step is PollPing && final(self)@ == (match report.result {
                    PingResult::Ping { rtt } => PingView {
                        nodes: with_ping(old(self)@.nodes, report.peer@, rtt),
                        ..old(self)@
                    },
                    _ => old(self)@,
                }),
            },
    {
        match polled {
            Polled::Pending => PingStep::PollIdentify,
            Polled::Forward(action) => PingStep::Forward { part: Part::Ping, action },
            Polled::Event(report) => {
                if let PingResult::Ping { rtt } = report.result {
                    self.handle_ping_report(&report.peer, rtt);
                }
                PingStep::PollPing
            },
        }
    }

    /// What is to be done next once the identify behaviour was looked at.
    pub fn poll_identify<P>(&mut self, polled: Polled<IdentifyEvent, P>) -> (step: PingStep<P>)
        ensures
            match polled {
                Polled::Pending => step is CollectGarbage && final(self)@ == old(self)@,
                Polled::Forward(p) => step == (PingStep::<P>::Forward {
                    part: Part::Identify,
                    action: p,
                }) && final(self)@ == old(self)@,
                Polled::Event(IdentifyEvent::Received { peer_id: p, info: i }) => {
                    &&& step == PingStep::<P>::Event(
                        ioPingEvent::Identified { peer_id: p, info: i },
                    )
                    &&& final(self)@ == (PingView {
                        nodes: with_version(old(self)@.nodes, p@, i.agent_version@),
                        ..old(self)@
                    })
                },
                Polled::Event(_) => step is PollIdentify && final(self)@ == old(self)@,
            },
    {
        match polled {
            Polled::Pending => PingStep::CollectGarbage,
            Polled::Forward(action) => PingStep::Forward { part: Part::Identify, action },
            Polled::Event(IdentifyEvent::Received { peer_id, info }) => {
                self.handle_identify_report(&peer_id, &info);
                PingStep::Event(ioPingEvent::Identified { peer_id, info })
            },
            Polled::Event(_) => PingStep::PollIdentify,
        }
    }

    /// Looks at the timer: where it has run out, what was kept long enough is forgotten,
    /// and the timer is set again. It is first set when it is first looked at.
    pub fn collect_garbage(&mut self, now: Instant)
        ensures
            final(self)@ == ({
                let next = Some(later(now, secs(GARBAGE_COLLECT_INTERVAL_SECS as nat)));
                match old(self)@.garbage_collect {
                    Some(due) => if now.nanos >= due.nanos {
                        PingView {
                            nodes: current_nodes(old(self)@.nodes, now),
                            garbage_collect: next,
                            ..old(self)@
                        }
                    } else {
                        old(self)@
                    },
                    None => PingView { garbage_collect: next, ..old(self)@ },
                }
            }),
            final(self)@.garbage_collect != old(self)@.garbage_collect ==> (final(self)@.garbage_collect matches Some(due) && (due.nanos == now.nanos + 120_000_000_000
                || due.nanos == u128::MAX)),
            forall|peer: Seq<u8>|
                #![trigger final(self)@.nodes[peer]]
                final(self)@.nodes.contains_key(peer) ==> old(self)@.nodes.contains_key(peer)
                    && final(self)@.nodes[peer] == old(self)@.nodes[peer],
            forall|peer: Seq<u8>|
                #![trigger old(self)@.nodes[peer]]
                old(self)@.nodes.contains_key(peer) && !final(self)@.nodes.contains_key(peer) ==> (
                old(self)@.nodes[peer].info_expire matches Some(expire) && expire.nanos
                    < now.nanos),
    {
        let interval = Duration::from_secs(GARBAGE_COLLECT_INTERVAL_SECS);
        match self.garbage_collect {
            Some(due) => {
                if now.nanos >= due.nanos {
                    retain_current(&mut self.nodes_info, now);
                    self.garbage_collect = Some(now.after(interval));
                }
            },
            None => {
                self.garbage_collect = Some(now.after(interval));
            },
        }
    }

    /// The addresses of a peer that the two behaviours know: none.
    pub fn addresses_of_peer(&self, peer_id: &PeerId) -> (addresses: Vec<Multiaddr>)
        ensures
            addresses@.len() == 0,
    {
        Vec::new()
    }
}

/// What is known of a peer is forgotten when it was kept long enough, and nothing else
/// is: of every other peer the same is known as before.
pub proof fn garbage_is_what_expired(
    nodes: Map<Seq<u8>, PingInfoView>,
    now: Instant,
    peer: Seq<u8>,
)
    ensures
        current_nodes(nodes, now).contains_key(peer) <==> nodes.contains_key(peer) && is_current(
            nodes[peer],
            now,
        ),
        current_nodes(nodes, now).contains_key(peer) ==> current_nodes(nodes, now)[peer]
            == nodes[peer],
{
}

/// What is known of a peer that was connected, and has not been disconnected since, is
/// never forgotten.
pub proof fn connected_peers_are_kept(
    nodes: Map<Seq<u8>, PingInfoView>,
    peer: Seq<u8>,
    endpoint: ConnectedPointView,
    connected: Instant,
    now: Instant,
)
    ensures
        current_nodes(with_connection(nodes, peer, endpoint, connected), now).contains_key(peer),
{
}

/// What is known of a peer is kept for ten minutes after it was disconnected, and not
/// longer.
pub proof fn disconnected_peers_expire(
    nodes: Map<Seq<u8>, PingInfoView>,
    peer: Seq<u8>,
    lost: Instant,
    now: Instant,
)
    requires
        nodes.contains_key(peer),
    ensures
        current_nodes(disconnected(nodes, peer, lost), now).contains_key(peer) <==> now.nanos
            <= lost.nanos + 600 * 1_000_000_000,
{
}

/// A peer that comes back in time is known as before, and one that comes back later is
/// a stranger: what it runs and how far away it is has to be learnt again. Either way it
/// is not forgotten from then on.
pub proof fn returning_peers(
    nodes: Map<Seq<u8>, PingInfoView>,
    peer: Seq<u8>,
    endpoint: ConnectedPointView,
    lost: Instant,
    now: Instant,
)
    requires
        nodes.contains_key(peer),
    ensures
        ({
            let back = with_connection(disconnected(nodes, peer, lost), peer, endpoint, now)[peer];
            if now.nanos <= lost.nanos + 600 * 1_000_000_000 {
                back.client_version == nodes[peer].client_version && back.latest_ping
                    == nodes[peer].latest_ping
            } else {
                back.client_version is None && back.latest_ping is None
            }
        }),
        ({
            let after = with_connection(disconnected(nodes, peer, lost), peer, endpoint, now);
            after[peer].info_expire is None && forall|time: Instant|
                #[trigger] current_nodes(after, time).contains_key(peer)
        }),
{
}

/// A peer that is connected once more without having been disconnected is known as
/// before.
pub proof fn connected_peers_stay_known(
    nodes: Map<Seq<u8>, PingInfoView>,
    peer: Seq<u8>,
    endpoint: ConnectedPointView,
    now: Instant,
)
    requires
        nodes.contains_key(peer),
        nodes[peer].info_expire is None,
    ensures
        ({
            let again = with_connection(nodes, peer, endpoint, now)[peer];
            &&& again.client_version == nodes[peer].client_version
            &&& again.latest_ping == nodes[peer].latest_ping
            &&& again.info_expire is None
            &&& again.endpoints == nodes[peer].endpoints.push(endpoint)
        }),
{
}

/// What is left of a list once one item was taken out are the other items.
proof fn lemma_others(
    list: Seq<ConnectedPointView>,
    endpoint: ConnectedPointView,
    other: ConnectedPointView,
)
    ensures
        list.filter(is_other(endpoint)).contains(other) <==> other != endpoint && list.contains(
            other,
        ),
    decreases list.len(),
{
    reveal(Seq::filter);
    let pred = is_other(endpoint);
    if list.len() > 0 {
        lemma_others(list.drop_last(), endpoint, other);
        lemma_contains_push(list.drop_last(), list.last(), other);
        assert(list =~= list.drop_last().push(list.last()));
        lemma_contains_push(list.drop_last().filter(pred), list.last(), other);
    }
}

/// A list with one more item holds that item and what it held.
proof fn lemma_contains_push(
    list: Seq<ConnectedPointView>,
    item: ConnectedPointView,
    other: ConnectedPointView,
)
    ensures
        list.push(item).contains(other) <==> list.contains(other) || other == item,
{
    let longer = list.push(item);
    if list.contains(other) {
        let i = choose|i: int| 0 <= i < list.len() && list[i] == other;
        assert(longer[i] == other);
    }
    if longer.contains(other) && other != item {
        let i = choose|i: int| 0 <= i < longer.len() && longer[i] == other;
        assert(list[i] == other);
    }
    if other == item {
        assert(longer[longer.len() - 1] == other);
    }
}

/// The time of a ping that was answered takes the place of whatever was known before, of a
/// peer that is known. Nothing else of that peer changes, and nothing of any other.
pub proof fn the_latest_ping_counts(
    before: Map<Seq<u8>, PingInfoView>,
    peer: Seq<u8>,
    first: Duration,
    second: Duration,
    other: Seq<u8>,
)
    ensures
        ({
            let after = with_ping(before, peer, first);
            let again = with_ping(after, peer, second);
            &&& forall|id: Seq<u8>| #[trigger] after.contains_key(id) <==> before.contains_key(id)
            &&& before.contains_key(peer) ==> {
                &&& after[peer].latest_ping == Some(first)
                &&& again[peer].latest_ping == Some(second)
                &&& after[peer].info_expire == before[peer].info_expire
                &&& after[peer].endpoints == before[peer].endpoints
                &&& after[peer].client_version == before[peer].client_version
            }
            &&& other != peer && before.contains_key(other) ==> after[other] == before[other]
        }),
{
}

/// What a peer says that it runs takes the place of what it said before. Nothing else of
/// that peer changes, and nothing of any other.
pub proof fn the_latest_version_counts(
    before: Map<Seq<u8>, PingInfoView>,
    peer: Seq<u8>,
    first: Seq<char>,
    second: Seq<char>,
    other: Seq<u8>,
)
    ensures
        ({
            let after = with_version(before, peer, first);
            let again = with_version(after, peer, second);
            &&& forall|id: Seq<u8>| #[trigger] after.contains_key(id) <==> before.contains_key(id)
            &&& before.contains_key(peer) ==> {
                &&& after[peer].client_version == Some(first)
                &&& again[peer].client_version == Some(second)
                &&& after[peer].info_expire == before[peer].info_expire
                &&& after[peer].endpoints == before[peer].endpoints
                &&& after[peer].latest_ping == before[peer].latest_ping
            }
            &&& other != peer && before.contains_key(other) ==> after[other] == before[other]
        }),
{
}

/// Of a peer that is connected for the first time only that connection is known. One that is
/// connected once more has one more connection, behind the others; what was known of it is
/// forgotten where it was kept only until an earlier time, and kept otherwise. Nothing of
/// any other peer changes.
pub proof fn connections_are_added(
    before: Map<Seq<u8>, PingInfoView>,
    peer: Seq<u8>,
    endpoint: ConnectedPointView,
    now: Instant,
    other: Seq<u8>,
)
    ensures
        ({
            let after = with_connection(before, peer, endpoint, now);
            &&& after.contains_key(peer)
            &&& after[peer].info_expire is None
            &&& after[peer].endpoints.last() == endpoint
            &&& !before.contains_key(peer) ==> after[peer].endpoints.len() == 1
                && after[peer].client_version is None && after[peer].latest_ping is None
            &&& before.contains_key(peer) ==> after[peer].endpoints.drop_last()
                == before[peer].endpoints
            &&& before.contains_key(peer) && (before[peer].info_expire is None
                || before[peer].info_expire->0.nanos >= now.nanos) ==> after[peer].client_version
                == before[peer].client_version && after[peer].latest_ping
                == before[peer].latest_ping
            &&& before.contains_key(peer) && before[peer].info_expire is Some
                && before[peer].info_expire->0.nanos < now.nanos ==> after[peer].client_version
                is None && after[peer].latest_ping is None
            &&& other != peer ==> (after.contains_key(other) <==> before.contains_key(other))
            &&& other != peer && before.contains_key(other) ==> after[other] == before[other]
        }),
{
    let after = with_connection(before, peer, endpoint, now);
    if before.contains_key(peer) {
        assert(after[peer].endpoints.drop_last() =~= before[peer].endpoints);
    }
}

/// Closing a connection takes out every connection with the same ends, and no other: one
/// that was added in between stays exactly where its ends are others. Nothing else of the
/// peer changes, and nothing of any other.
pub proof fn closing_undoes_connecting(
    before: Map<Seq<u8>, PingInfoView>,
    peer: Seq<u8>,
    added: ConnectedPointView,
    closed: ConnectedPointView,
    now: Instant,
    other: Seq<u8>,
)
    ensures
        ({
            let after = without_connection(before, peer, closed);
            let more = without_connection(
                with_connection(before, peer, added, now),
                peer,
                closed,
            )[peer].endpoints;
            let few: Seq<ConnectedPointView> = if before.contains_key(peer) {
                after[peer].endpoints
            } else {
                Seq::empty()
            };
            &&& more == if added == closed {
                few
            } else {
                few.push(added)
            }
            &&& forall|id: Seq<u8>| #[trigger] after.contains_key(id) <==> before.contains_key(id)
            &&& before.contains_key(peer) ==> {
                &&& !after[peer].endpoints.contains(closed)
                &&& !before[peer].endpoints.contains(closed) ==> after[peer].endpoints.len()
                    == before[peer].endpoints.len()
                &&& after[peer].info_expire == before[peer].info_expire
                &&& after[peer].client_version == before[peer].client_version
                &&& after[peer].latest_ping == before[peer].latest_ping
            }
            &&& other != peer && before.contains_key(other) ==> after[other] == before[other]
        }),
{
    reveal(Seq::filter);
    let pred = is_other(closed);
    let with = with_connection(before, peer, added, now)[peer].endpoints;
    assert(with.last() == added);
    assert(with.filter(pred) == if pred(with.last()) {
        with.drop_last().filter(pred).push(with.last())
    } else {
        with.drop_last().filter(pred)
    });
    if before.contains_key(peer) {
        let list = before[peer].endpoints;
        assert(with.drop_last() =~= list);
        lemma_others(list, closed, closed);
        assert(!list.filter(pred).contains(closed));
        if !list.contains(closed) {
            lemma_nothing_leaves(list, closed);
        }
    } else {
        assert(with.drop_last() =~= Seq::<ConnectedPointView>::empty());
        assert(Seq::<ConnectedPointView>::empty().filter(pred) =~= Seq::<
            ConnectedPointView,
        >::empty());
    }
}

/// Nothing is taken out of a list that an item is not in.
proof fn lemma_nothing_leaves(list: Seq<ConnectedPointView>, endpoint: ConnectedPointView)
    requires
        !list.contains(endpoint),
    ensures
        list.filter(is_other(endpoint)) == list,
    decreases list.len(),
{
    reveal(Seq::filter);
    if list.len() > 0 {
        assert(list[list.len() - 1] == list.last());
        assert forall|i: int| 0 <= i < list.len() - 1 implies list.drop_last()[i] != endpoint by {
            assert(list[i] == list.drop_last()[i]);
        }
        lemma_nothing_leaves(list.drop_last(), endpoint);
        assert(list =~= list.drop_last().push(list.last()));
    }
}

/// What is known of a peer goes only where a time was set until which it is kept, and that
/// time has passed: of a peer that was disconnected ten minutes and no longer ago everything
/// is still known.
pub proof fn only_what_expired_is_forgotten(
    before: Map<Seq<u8>, PingInfoView>,
    now: Instant,
    peer: Seq<u8>,
)
    ensures
        ({
            let after = current_nodes(before, now);
            &&& after.contains_key(peer) ==> before.contains_key(peer) && after[peer]
                == before[peer]
            &&& before.contains_key(peer) && before[peer].info_expire is None
                ==> after.contains_key(peer)
            &&& before.contains_key(peer) && before[peer].info_expire is Some ==> (
            after.contains_key(peer) <==> now.nanos <= before[peer].info_expire->0.nanos)
        }),
{
}

/// Losing the last connection to a peer changes nothing but until when what is known of it
/// is kept: 600 seconds from then on. Nothing of any other peer changes.
pub proof fn disconnecting_sets_the_expiry(
    before: Map<Seq<u8>, PingInfoView>,
    peer: Seq<u8>,
    lost: Instant,
    other: Seq<u8>,
)
    ensures
        ({
            let after = disconnected(before, peer, lost);
            &&& forall|id: Seq<u8>| #[trigger] after.contains_key(id) <==> before.contains_key(id)
            &&& before.contains_key(peer) ==> {
                &&& after[peer].info_expire is Some
                &&& lost.nanos + 600_000_000_000 <= u128::MAX ==> after[peer].info_expire->0.nanos
                    == lost.nanos + 600_000_000_000
                &&& after[peer].endpoints == before[peer].endpoints
                &&& after[peer].client_version == before[peer].client_version
                &&& after[peer].latest_ping == before[peer].latest_ping
            }
            &&& other != peer && before.contains_key(other) ==> after[other] == before[other]
        }),
{
}

} // verus!
