//! Discovery: which Kademlia tables the node takes part in, when it looks for
//! peers, and what it makes of what the tables report.
use crate::behaviour::dht::{
    default_config, dht_addresses, dht_buckets, dht_routed, dht_view, disjoint_query_paths,
    get_closest_peers, get_record, in_order, kbuckets, known_addresses, lists_values,
    protocol_name, put_record, random_peer_id, set_kbucket_inserts, set_protocol_name, stored_values, takes_record, with_config,
    BucketInserts, Dht, DhtConfigView, DhtView, QueryView, Quorum,
};
use crate::behaviour::ip::{
    ipv4_is_global, ipv4_is_private, ipv6_is_global, is_global_ipv4, is_global_ipv6,
    is_private_ipv4,
};
use crate::behaviour::lru::{LruSet, LruView};
use crate::behaviour::polled::Polled;
use crate::node_keys::identity_key::{key_encoding, key_peer_id, peer_id_of};
use crate::octets::{
    append_bytes, ascii, ascii_bytes, copy_bytes, same_bytes, text_of, views,
};
use crate::peer::{
    address_views, first_component, is_address, is_peer_id, p2p_component, Multiaddr, PeerId,
    Protocol, ProtocolView,
};
use crate::time::{later, secs, Duration, Instant};
use std::collections::VecDeque;
use vstd::arithmetic::power2::{
    lemma2_to64, lemma_pow2_strictly_increases, lemma_pow2_unfold, pow2,
};
use vstd::multiset::Multiset;
use vstd::prelude::*;
use vstd::utf8::{
    decode_utf8, decode_utf8_encode_utf8, encode_utf8, encode_utf8_decode_utf8,
    encode_utf8_valid_utf8, valid_utf8,
};

verus! {

/// How many external addresses of the node are kept.
pub const MAX_KNOWN_EXTERNAL_ADDRESSES: usize = 32;

/// How long the node waits at first between two random queries.
pub const FIRST_QUERY_DELAY_SECS: u64 = 1;

/// How long the node waits at most between two random queries.
pub const MAX_QUERY_DELAY_SECS: u64 = 60;

/// A byte string that is held in place up to a length of six.
#[verifier::external_body]
#[derive(Debug, PartialEq, Eq, Hash)]
pub struct InlineBytes(smallvec::SmallVec<[u8; 6]>);

/// The bytes that a `smallvec::SmallVec` holds.
pub uninterp spec fn inline_bytes(bytes: InlineBytes) -> Seq<u8>;

/// `smallvec::SmallVec::from` of a slice: holds the bytes of the slice.
#[verifier::external_body]
fn inline_from(bytes: &[u8]) -> (r: InlineBytes)
    ensures
        inline_bytes(r) == bytes@,
{
    InlineBytes(bytes.into())
}

/// `smallvec::SmallVec::as_slice`: the bytes that are held.
#[verifier::external_body]
fn inline_slice(bytes: &InlineBytes) -> (r: &[u8])
    ensures
        r@ == inline_bytes(*bytes),
{
    bytes.0.as_slice()
}

/// The identity of a chain that the node takes part in.
#[derive(Debug, PartialEq, Eq, Hash)]
pub struct ProtocolId {
    bytes: InlineBytes,
}

impl View for ProtocolId {
    type V = Seq<char>;

    closed spec fn view(&self) -> Seq<char> {
        decode_utf8(inline_bytes(self.bytes))
    }
}

impl Clone for ProtocolId {
    fn clone(&self) -> (copy: ProtocolId)
        ensures
            copy@ == self@,
    {
        proof {
            use_type_invariant(self);
        }
        ProtocolId { bytes: inline_from(inline_slice(&self.bytes)) }
    }
}

impl ProtocolId {
    #[verifier::type_invariant]
    spec fn inv(self) -> bool {
        valid_utf8(inline_bytes(self.bytes))
    }

    /// The identity with that text.
    pub fn from(text: &str) -> (id: ProtocolId)
        ensures
            id@ == text@,
    {
        proof {
            encode_utf8_valid_utf8(text@);
            encode_utf8_decode_utf8(text@);
        }
        ProtocolId { bytes: inline_from(text.as_bytes()) }
    }

    /// The text of the identity.
    pub fn as_ref(&self) -> (text: &str)
        ensures
            text@ == self@,
    {
        proof {
            use_type_invariant(self);
        }
        match text_of(inline_slice(&self.bytes)) {
            Some(text) => {
                proof {
                    encode_utf8_decode_utf8(text@);
                }
                text
            },
            None => "",
        }
    }

    /// Whether two identities are the same.
    pub fn same(&self, other: &ProtocolId) -> (same: bool)
        ensures
            same == (self@ == other@),
    {
        proof {
            use_type_invariant(self);
            use_type_invariant(other);
            decode_utf8_encode_utf8(inline_bytes(self.bytes));
            decode_utf8_encode_utf8(inline_bytes(other.bytes));
        }
        same_bytes(inline_slice(&self.bytes), inline_slice(&other.bytes))
    }
}

/// The identities that a list of them stands for.
pub open spec fn id_views(list: Seq<ProtocolId>) -> Seq<Seq<char>> {
    Seq::new(list.len(), |i: int| list[i]@)
}

/// The name of the Kademlia protocol of a chain: the identity of the chain between
/// slashes, then `kad`.
pub open spec fn kademlia_name(id: Seq<char>) -> Seq<u8> {
    ascii("/"@) + encode_utf8(id) + ascii("/kad"@)
}

/// The name of the Kademlia protocol of a chain.
pub fn protocol_name_from_protocol_id(id: &ProtocolId) -> (name: Vec<u8>)
    ensures
        name@ == kademlia_name(id@),
{
    proof {
        reveal_strlit("/");
        reveal_strlit("/kad");
    }
    let mut v = ascii_bytes("/");
    append_bytes(&mut v, id.as_ref().as_bytes());
    append_bytes(&mut v, ascii_bytes("/kad").as_slice());
    v
}

/// Two chains never share the name of a Kademlia protocol.
pub proof fn protocol_names_are_distinct(a: Seq<char>, b: Seq<char>)
    ensures
        kademlia_name(a) == kademlia_name(b) <==> a == b,
{
    if kademlia_name(a) == kademlia_name(b) {
        let front = ascii("/"@);
        let back = ascii("/kad"@);
        let name = kademlia_name(a);
        let x = encode_utf8(a);
        let y = encode_utf8(b);
        assert(name.len() == front.len() + x.len() + back.len());
        assert(name.len() == front.len() + y.len() + back.len());
        let start = front.len() as int;
        assert(x =~= name.subrange(start, start + x.len()));
        assert(y =~= name.subrange(start, start + y.len()));
        encode_utf8_decode_utf8(a);
        encode_utf8_decode_utf8(b);
    }
}

/// What discovery is configured to.
pub struct DiscoveryConfig {
    local_peer_id: PeerId,
    allow_private_ipv4: bool,
    allow_non_globals_in_dht: bool,
    discovery_only_if_under_num: u64,
    enable_mdns: bool,
    kademlia_disjoint_query_paths: bool,
    protocol_ids: Vec<ProtocolId>,
}

/// What a configuration stands for.
#[verifier::ext_equal]
pub struct DiscoveryConfigView {
    /// The identity of the node.
    pub local_peer_id: Seq<u8>,
    /// Whether private IPv4 addresses are handed out.
    pub allow_private_ipv4: bool,
    /// Whether addresses that cannot be reached from anywhere enter the tables.
    pub allow_non_globals_in_dht: bool,
    /// How many connections there have to be for discovery to pause.
    pub discovery_only_if_under_num: u64,
    /// Whether peers are looked for on the local network.
    pub enable_mdns: bool,
    /// Whether a query takes paths that share no peer.
    pub kademlia_disjoint_query_paths: bool,
    /// The chains that the node takes part in.
    pub protocol_ids: Seq<Seq<char>>,
}

impl View for DiscoveryConfig {
    type V = DiscoveryConfigView;

    closed spec fn view(&self) -> DiscoveryConfigView {
        DiscoveryConfigView {
            local_peer_id: self.local_peer_id@,
            allow_private_ipv4: self.allow_private_ipv4,
            allow_non_globals_in_dht: self.allow_non_globals_in_dht,
            discovery_only_if_under_num: self.discovery_only_if_under_num,
            enable_mdns: self.enable_mdns,
            kademlia_disjoint_query_paths: self.kademlia_disjoint_query_paths,
            protocol_ids: id_views(self.protocol_ids@),
        }
    }
}

impl DiscoveryConfigView {
    /// No chain is there twice.
    pub open spec fn wf(self) -> bool {
        self.protocol_ids.no_duplicates()
    }

    /// The configuration with one more chain, unless it is there already.
    pub open spec fn with_protocol(self, id: Seq<char>) -> DiscoveryConfigView {
        if self.protocol_ids.contains(id) {
            self
        } else {
            DiscoveryConfigView { protocol_ids: self.protocol_ids.push(id), ..self }
        }
    }
}

/// The configuration that a node starts from: it takes part in no chain, hands out
/// private addresses, keeps them out of the tables, and always looks for peers, but
/// not on the local network.
pub open spec fn default_discovery(local_peer_id: Seq<u8>) -> DiscoveryConfigView {
    DiscoveryConfigView {
        local_peer_id,
        allow_private_ipv4: true,
        allow_non_globals_in_dht: false,
        discovery_only_if_under_num: u64::MAX,
        enable_mdns: false,
        kademlia_disjoint_query_paths: false,
        protocol_ids: Seq::empty(),
    }
}

impl DiscoveryConfig {
    /// The configuration that the node with a public key starts from.
    pub fn new(local_public_key: libp2p::core::PublicKey) -> (config: DiscoveryConfig)
        ensures
            config@ == default_discovery(key_peer_id(key_encoding(local_public_key))),
            config@.wf(),
            is_peer_id(config@.local_peer_id),
    {
        DiscoveryConfig::for_peer(peer_id_of(local_public_key))
    }

    /// The configuration that the node with an identity starts from.
    pub fn for_peer(local_peer_id: PeerId) -> (config: DiscoveryConfig)
        ensures
            config@ == default_discovery(local_peer_id@),
            config@.wf(),
    {
        let config = DiscoveryConfig {
            local_peer_id,
            allow_private_ipv4: true,
            allow_non_globals_in_dht: false,
            discovery_only_if_under_num: u64::MAX,
            enable_mdns: false,
            kademlia_disjoint_query_paths: false,
            protocol_ids: Vec::new(),
        };
        assert(config@.protocol_ids =~= Seq::<Seq<char>>::empty());
        config
    }

    /// Sets how many connections there have to be for discovery to pause.
    pub fn discovery_limit(&mut self, limit: u64) -> (r: &mut Self)
        ensures
            r@ == (DiscoveryConfigView { discovery_only_if_under_num: limit, ..old(self)@ }),
            *final(self) == *final(r),
    {
        self.discovery_only_if_under_num = limit;
        self
    }

    /// Takes addresses of peers, which are not made use of.
    pub fn with_user_defined(&mut self, user_defined: Vec<(PeerId, Multiaddr)>) -> (r: &mut Self)
        ensures
            r@ == old(self)@,
            *final(self) == *final(r),
    {
        self
    }

    /// Sets whether private IPv4 addresses are handed out.
    pub fn allow_private_ipv4(&mut self, value: bool) -> (r: &mut Self)
        ensures
            r@ == (DiscoveryConfigView { allow_private_ipv4: value, ..old(self)@ }),
            *final(self) == *final(r),
    {
        self.allow_private_ipv4 = value;
        self
    }

    /// Sets whether addresses that cannot be reached from anywhere enter the tables.
    pub fn allow_non_globals_in_dht(&mut self, value: bool) -> (r: &mut Self)
        ensures
            r@ == (DiscoveryConfigView { allow_non_globals_in_dht: value, ..old(self)@ }),
            *final(self) == *final(r),
    {
        self.allow_non_globals_in_dht = value;
        self
    }

    /// Sets whether peers are looked for on the local network.
    pub fn with_mdns(&mut self, value: bool) -> (r: &mut Self)
        ensures
            r@ == (DiscoveryConfigView { enable_mdns: value, ..old(self)@ }),
            *final(self) == *final(r),
    {
        self.enable_mdns = value;
        self
    }

    /// Whether the node takes part in a chain.
    fn has_protocol(&self, id: &ProtocolId) -> (r: bool)
        ensures
            r == self@.protocol_ids.contains(id@),
    {
        let mut i: usize = 0;
        while i < self.protocol_ids.len()
            invariant
                i <= self.protocol_ids@.len(),
                forall|j: int| 0 <= j < i ==> self@.protocol_ids[j] != id@,
            decreases self.protocol_ids@.len() - i,
        {
            if self.protocol_ids[i].same(id) {
                assert(self@.protocol_ids[i as int] == id@);
                return true;
            }
            i = i + 1;
        }
        false
    }

    /// Makes the node take part in a chain; nothing happens where it does already.
    pub fn add_protocol(&mut self, id: ProtocolId) -> (r: &mut Self)
        ensures
            r@ == old(self)@.with_protocol(id@),
            old(self)@.wf() ==> r@.wf(),
            *final(self) == *final(r),
    {
        let ghost before = self@;
        proof {
            if before.wf() {
                adding_a_protocol_twice(before, id@);
            }
        }
        if !self.has_protocol(&id) {
            self.protocol_ids.push(id);
            assert(self@.protocol_ids =~= before.protocol_ids.push(id@));
        }
        self
    }

    /// Sets whether a query takes paths that share no peer.
    pub fn use_kademlia_disjoint_query_paths(&mut self, value: bool) -> (r: &mut Self)
        ensures
            r@ == (DiscoveryConfigView { kademlia_disjoint_query_paths: value, ..old(self)@ }),
            *final(self) == *final(r),
    {
        self.kademlia_disjoint_query_paths = value;
        self
    }
}

/// What discovery tells the node.
#[derive(Debug)]
pub enum DiscoveryOut {
    /// A peer that can be reached.
    Discovered(PeerId),
    /// A peer of which no address is known.
    UnroutablePeer(PeerId),
    /// The records that were found, each under its key, and how long it took.
    ValueFound(Vec<(Vec<u8>, Vec<u8>)>, Duration),
    /// No record was found under a key.
    ValueNotFound(Vec<u8>, Duration),
    /// The record under a key was spread.
    ValuePut(Vec<u8>, Duration),
    /// The record under a key was not kept, or not spread.
    ValuePutFailed(Vec<u8>, Duration),
    /// A query for a random peer was started in the tables of these chains.
    RandomKademliaStarted(Vec<ProtocolId>),
}

/// What such a message stands for.
pub enum DiscoveryOutView {
    Discovered(Seq<u8>),
    UnroutablePeer(Seq<u8>),
    ValueFound(Seq<(Seq<u8>, Seq<u8>)>, Duration),
    ValueNotFound(Seq<u8>, Duration),
    ValuePut(Seq<u8>, Duration),
    ValuePutFailed(Seq<u8>, Duration),
    RandomKademliaStarted(Seq<Seq<char>>),
}

/// The records that a list of them stands for.
pub open spec fn record_views(list: Seq<(Vec<u8>, Vec<u8>)>) -> Seq<(Seq<u8>, Seq<u8>)> {
    Seq::new(list.len(), |i: int| (list[i].0@, list[i].1@))
}

impl View for DiscoveryOut {
    type V = DiscoveryOutView;

    open spec fn view(&self) -> DiscoveryOutView {
        match *self {
            DiscoveryOut::Discovered(peer) => DiscoveryOutView::Discovered(peer@),
            DiscoveryOut::UnroutablePeer(peer) => DiscoveryOutView::UnroutablePeer(peer@),
            DiscoveryOut::ValueFound(records, time) => DiscoveryOutView::ValueFound(
                record_views(records@),
                time,
            ),
            DiscoveryOut::ValueNotFound(key, time) => DiscoveryOutView::ValueNotFound(key@, time),
            DiscoveryOut::ValuePut(key, time) => DiscoveryOutView::ValuePut(key@, time),
            DiscoveryOut::ValuePutFailed(key, time) => DiscoveryOutView::ValuePutFailed(key@, time),
            DiscoveryOut::RandomKademliaStarted(ids) => DiscoveryOutView::RandomKademliaStarted(
                id_views(ids@),
            ),
        }
    }
}

/// The messages that a list of them stands for.
pub open spec fn out_views(list: Seq<DiscoveryOut>) -> Seq<DiscoveryOutView> {
    Seq::new(list.len(), |i: int| list[i]@)
}

/// The table of a chain.
#[verifier::ext_equal]
pub struct KademliaView {
    pub id: Seq<char>,
    pub dht: DhtView,
}

/// The tables that a list of them stands for.
pub open spec fn kademlia_views(list: Seq<(ProtocolId, Dht)>) -> Seq<KademliaView> {
    Seq::new(list.len(), |i: int| KademliaView { id: list[i].0@, dht: dht_view(list[i].1) })
}

/// The chains that tables are for.
pub open spec fn table_ids(kademlias: Seq<KademliaView>) -> Seq<Seq<char>> {
    Seq::new(kademlias.len(), |i: int| kademlias[i].id)
}

/// A table that a chain starts with.
pub open spec fn new_table(local: Seq<u8>, id: Seq<char>, disjoint: bool) -> KademliaView {
    KademliaView {
        id,
        dht: DhtView {
            local,
            config: DhtConfigView {
                protocol: kademlia_name(id),
                inserts: BucketInserts::Manual,
                disjoint,
            },
            records: Map::empty(),
            max_records: 1024,
            max_value_bytes: 65 * 1024,
            queries: Multiset::empty(),
        },
    }
}

/// Discovery.
pub struct DiscoveryBehaviour {
    kademlias: Vec<(ProtocolId, Dht)>,
    next_kad_random_query: Instant,
    duration_to_next_kad: Duration,
    pending_events: VecDeque<DiscoveryOut>,
    local_peer_id: PeerId,
    num_connections: u64,
    allow_private_ipv4: bool,
    discovery_only_if_under_num: u64,
    mdns: bool,
    allow_non_globals_in_dht: bool,
    known_external_addresses: LruSet,
}

/// The state of discovery.
#[verifier::ext_equal]
pub struct DiscoveryView {
    /// The table of each chain.
    pub kademlias: Seq<KademliaView>,
    /// When the next random query is due.
    pub next_kad_random_query: Instant,
    /// How long after that query the one after it is due.
    pub duration_to_next_kad: Duration,
    /// What waits to be told to the node.
    pub pending_events: Seq<DiscoveryOutView>,
    /// The identity of the node.
    pub local_peer_id: Seq<u8>,
    /// How many connections there are.
    pub num_connections: u64,
    pub allow_private_ipv4: bool,
    pub discovery_only_if_under_num: u64,
    pub mdns: bool,
    pub allow_non_globals_in_dht: bool,
    /// The addresses under which the node is known to be reached.
    pub known_external_addresses: LruView,
}

impl View for DiscoveryBehaviour {
    type V = DiscoveryView;

    closed spec fn view(&self) -> DiscoveryView {
        DiscoveryView {
            kademlias: kademlia_views(self.kademlias@),
            next_kad_random_query: self.next_kad_random_query,
            duration_to_next_kad: self.duration_to_next_kad,
            pending_events: out_views(self.pending_events@),
            local_peer_id: self.local_peer_id@,
            num_connections: self.num_connections,
            allow_private_ipv4: self.allow_private_ipv4,
            discovery_only_if_under_num: self.discovery_only_if_under_num,
            mdns: self.mdns,
            allow_non_globals_in_dht: self.allow_non_globals_in_dht,
            known_external_addresses: self.known_external_addresses@,
        }
    }
}

/// Whether some records are at most 1024, each with a value of less than 65 KiB.
pub open spec fn within_limits(records: Map<Seq<u8>, Seq<u8>>) -> bool {
    &&& records.dom().finite()
    &&& records.len() <= 1024
    &&& forall|key: Seq<u8>|
        #![trigger records[key]]
        records.contains_key(key) ==> records[key].len() < 65 * 1024
}

/// Whether a table goes by the name of its chain, has the limits that it was made with, and
/// keeps to them.
pub open spec fn table_wf(kademlia: KademliaView) -> bool {
    &&& kademlia.dht.config.protocol == kademlia_name(kademlia.id)
    &&& kademlia.dht.max_records == 1024
    &&& kademlia.dht.max_value_bytes == 65 * 1024
    &&& within_limits(kademlia.dht.records)
}

impl DiscoveryView {
    /// Every chain has one table, every table is in order, the set of external
    /// addresses is too and has its limit, no start of a random query waits to be told, and
    /// the delay between queries is positive and has not grown beyond its limit.
    pub open spec fn wf(self) -> bool {
        &&& table_ids(self.kademlias).no_duplicates()
        &&& forall|i: int| 0 <= i < self.kademlias.len() ==> table_wf(#[trigger] self.kademlias[i])
        &&& self.known_external_addresses.wf()
        &&& self.known_external_addresses.limit == MAX_KNOWN_EXTERNAL_ADDRESSES
        &&& forall|i: int|
            0 <= i < self.pending_events.len() ==> !((#[trigger] self.pending_events[i])
                is RandomKademliaStarted)
        &&& 0 < self.duration_to_next_kad.nanos
        &&& self.duration_to_next_kad.nanos <= secs(MAX_QUERY_DELAY_SECS as nat).nanos
    }
}

/// Discovery with another state of one of its tables.
pub open spec fn with_table(view: DiscoveryView, index: int, dht: DhtView) -> DiscoveryView {
    DiscoveryView {
        kademlias: view.kademlias.update(
            index,
            KademliaView { dht, ..view.kademlias[index] },
        ),
        ..view
    }
}

/// Another state of one table, in order itself, leaves everything in order.
proof fn lemma_one_table(view: DiscoveryView, index: int)
    requires
        0 <= index < view.kademlias.len(),
    ensures
        forall|dht: DhtView|
            view.wf() && table_wf(KademliaView { dht, ..view.kademlias[index] })
                ==> #[trigger] with_table(view, index, dht).wf(),
{
    assert forall|dht: DhtView|
        view.wf() && table_wf(
            KademliaView { dht, ..view.kademlias[index] },
        ) implies #[trigger] with_table(view, index, dht).wf() by {
        let after = with_table(view, index, dht).kademlias;
        assert(table_ids(after) =~= table_ids(view.kademlias));
        assert forall|j: int| 0 <= j < after.len() implies table_wf(#[trigger] after[j]) by {
            if j != index {
                assert(after[j] == view.kademlias[j]);
            }
        }
    }
}

/// The state that discovery starts in.
pub open spec fn new_discovery(config: DiscoveryConfigView, now: Instant) -> DiscoveryView {
    DiscoveryView {
        kademlias: Seq::new(
            config.protocol_ids.len(),
            |i: int|
                new_table(
                    config.local_peer_id,
                    config.protocol_ids[i],
                    config.kademlia_disjoint_query_paths,
                ),
        ),
        next_kad_random_query: now,
        duration_to_next_kad: secs(FIRST_QUERY_DELAY_SECS as nat),
        pending_events: Seq::empty(),
        local_peer_id: config.local_peer_id,
        num_connections: 0,
        allow_private_ipv4: config.allow_private_ipv4,
        discovery_only_if_under_num: config.discovery_only_if_under_num,
        mdns: config.enable_mdns,
        allow_non_globals_in_dht: config.allow_non_globals_in_dht,
        known_external_addresses: LruView {
            list: Seq::empty(),
            limit: MAX_KNOWN_EXTERNAL_ADDRESSES as nat,
        },
    }
}

impl DiscoveryConfig {
    /// Discovery that runs to this configuration: a table for every chain, and the
    /// first random query due at once.
    pub fn finish(self, now: Instant) -> (b: DiscoveryBehaviour)
        requires
            self@.wf(),
        ensures
            b@ == new_discovery(self@, now),
            b@.wf(),
    {
        let mut kademlias: Vec<(ProtocolId, Dht)> = Vec::new();
        let mut i: usize = 0;
        while i < self.protocol_ids.len()
            invariant
                i <= self.protocol_ids@.len(),
                kademlias@.len() == i,
                forall|j: int|
                    0 <= j < i ==> #[trigger] kademlia_views(kademlias@)[j] == new_table(
                        self.local_peer_id@,
                        self.protocol_ids@[j]@,
                        self.kademlia_disjoint_query_paths,
                    ),
            decreases self.protocol_ids@.len() - i,
        {
            let ghost before = kademlias@;
            let protocol_id = self.protocol_ids[i].clone();
            let proto_name = protocol_name_from_protocol_id(&protocol_id);
            let mut config = default_config();
            set_protocol_name(&mut config, proto_name);
            set_kbucket_inserts(&mut config, BucketInserts::Manual);
            disjoint_query_paths(&mut config, self.kademlia_disjoint_query_paths);
            let kad = with_config(self.local_peer_id.as_bytes(), config);
            kademlias.push((protocol_id, kad));
            assert forall|j: int| 0 <= j < i + 1 implies #[trigger] kademlia_views(kademlias@)[j]
                == new_table(
                self.local_peer_id@,
                self.protocol_ids@[j]@,
                self.kademlia_disjoint_query_paths,
            ) by {
                if j < i {
                    assert(kademlia_views(kademlias@)[j] == kademlia_views(before)[j]);
                }
            }
            i = i + 1;
        }
        let b = DiscoveryBehaviour {
            kademlias,
            next_kad_random_query: now,
            duration_to_next_kad: Duration::from_secs(FIRST_QUERY_DELAY_SECS),
            pending_events: VecDeque::new(),
            local_peer_id: self.local_peer_id,
            num_connections: 0,
            allow_private_ipv4: self.allow_private_ipv4,
            discovery_only_if_under_num: self.discovery_only_if_under_num,
            mdns: self.enable_mdns,
            allow_non_globals_in_dht: self.allow_non_globals_in_dht,
            known_external_addresses: LruSet::new(MAX_KNOWN_EXTERNAL_ADDRESSES),
        };
        proof {
            assert(b@.kademlias =~= new_discovery(self@, now).kademlias);
            assert(b@.pending_events =~= Seq::<DiscoveryOutView>::empty());
            assert(table_ids(b@.kademlias) =~= self@.protocol_ids);
        }
        b
    }
}

/// How many bytes the values of some records have together.
pub open spec fn total_size(records: Map<Seq<u8>, Seq<u8>>) -> nat
    decreases records.dom().len(),
    when records.dom().finite()
{
    if records.dom().is_empty() {
        0
    } else {
        let key = records.dom().choose();
        records[key].len() + total_size(records.remove(key))
    }
}

/// How many bytes the values in a list have together.
spec fn list_size(list: Seq<Seq<u8>>) -> nat
    decreases list.len(),
{
    if list.len() == 0 {
        0
    } else {
        list_size(list.drop_last()) + list.last().len()
    }
}

proof fn lemma_total_size_remove(records: Map<Seq<u8>, Seq<u8>>, key: Seq<u8>)
    requires
        records.dom().finite(),
        records.contains_key(key),
    ensures
        total_size(records) == records[key].len() + total_size(records.remove(key)),
    decreases records.dom().len(),
{
    let first = records.dom().choose();
    assert(records.dom().contains(first));
    if first != key {
        lemma_total_size_remove(records.remove(first), key);
        lemma_total_size_remove(records.remove(key), first);
        assert(records.remove(first).remove(key) =~= records.remove(key).remove(first));
    }
}

proof fn lemma_list_size(
    list: Seq<Seq<u8>>,
    keys: Seq<Seq<u8>>,
    records: Map<Seq<u8>, Seq<u8>>,
)
    requires
        in_order(list, keys, records),
    ensures
        list_size(list) == total_size(records),
    decreases list.len(),
{
    keys.unique_seq_to_set();
    vstd::seq_lib::seq_to_set_is_finite(keys);
    if list.len() == 0 {
        assert(records.dom() =~= Set::empty());
    } else {
        let front = keys.drop_last();
        let key = keys.last();
        assert(keys.contains(key));
        let rest = records.remove(key);
        assert forall|k: Seq<u8>| front.to_set().contains(k) <==> rest.dom().contains(k) by {
            if front.contains(k) {
                let i = choose|i: int| 0 <= i < front.len() && front[i] == k;
                assert(keys[i] == k);
                assert(keys.contains(k));
            }
            if rest.dom().contains(k) {
                assert(keys.to_set().contains(k));
                let i = choose|i: int| 0 <= i < keys.len() && keys[i] == k;
                assert(front[i] == k);
            }
        }
        assert(front.to_set() =~= rest.dom());
        assert forall|i: int| 0 <= i < list.drop_last().len() implies #[trigger] list.drop_last()[i]
            == rest[front[i]] by {
            assert(list[i] == records[keys[i]]);
            assert(keys[i] != key);
        }
        lemma_list_size(list.drop_last(), front, rest);
        lemma_total_size_remove(records, key);
        assert(list[list.len() - 1] == records[keys[list.len() - 1]]);
    }
}

/// There are as many values as records, none of them too long where the records keep to
/// their limits, and their size is that of the records.
proof fn lemma_listed(list: Seq<Seq<u8>>, records: Map<Seq<u8>, Seq<u8>>)
    requires
        lists_values(list, records),
    ensures
        list.len() == records.len(),
        list_size(list) == total_size(records),
        within_limits(records) ==> forall|i: int|
            0 <= i < list.len() ==> (#[trigger] list[i]).len() < 65 * 1024,
{
    let keys = choose|keys: Seq<Seq<u8>>| in_order(list, keys, records);
    keys.unique_seq_to_set();
    lemma_list_size(list, keys, records);
    assert forall|i: int| 0 <= i < list.len() && within_limits(records) implies (
    #[trigger] list[i]).len() < 65 * 1024 by {
        assert(keys.contains(keys[i]));
        assert(records.contains_key(keys[i]));
    }
}

/// Records that keep to their limits still do once one was taken out.
proof fn lemma_limits_without(records: Map<Seq<u8>, Seq<u8>>, key: Seq<u8>)
    requires
        within_limits(records),
    ensures
        within_limits(records.remove(key)),
{
    if !records.contains_key(key) {
        assert(records.remove(key) =~= records);
    }
}

/// Whether a table was asked for the record under a key, between two states of it.
pub open spec fn asked_record(before: KademliaView, after: KademliaView, key: Seq<u8>) -> bool {
    &&& after.id == before.id
    &&& after.dht == (DhtView {
        queries: before.dht.queries.insert(QueryView::GetRecord { key, quorum: Quorum::One }),
        records: after.dht.records,
        ..before.dht
    })
    &&& after.dht.records == before.dht.records || after.dht.records == before.dht.records.remove(
        key,
    )
}

/// A table after a record was put into it: one that does not take the record is left
/// as it was.
pub open spec fn with_record(kademlia: KademliaView, key: Seq<u8>, value: Seq<u8>) -> KademliaView {
    if takes_record(kademlia.dht, key, value) {
        KademliaView {
            dht: DhtView {
                records: kademlia.dht.records.insert(key, value),
                queries: kademlia.dht.queries.insert(
                    QueryView::PutRecord { key, value, quorum: Quorum::All },
                ),
                ..kademlia.dht
            },
            ..kademlia
        }
    } else {
        kademlia
    }
}

/// Putting a record into a table leaves the table in order.
proof fn lemma_with_record(kademlia: KademliaView, key: Seq<u8>, value: Seq<u8>)
    requires
        table_wf(kademlia),
    ensures
        table_wf(with_record(kademlia, key, value)),
{
    let records = kademlia.dht.records;
    if takes_record(kademlia.dht, key, value) {
        let after = records.insert(key, value);
        if records.contains_key(key) {
            assert(after.dom() =~= records.dom());
        }
        assert forall|other: Seq<u8>|
            #![trigger after[other]]
            after.contains_key(other) implies after[other].len() < 65 * 1024 by {
            if other != key {
                assert(records.contains_key(other));
                assert(after[other] == records[other]);
            }
        }
    }
}

/// How many tables do not take a record.
pub open spec fn refusals(kademlias: Seq<KademliaView>, key: Seq<u8>, value: Seq<u8>) -> nat
    decreases kademlias.len(),
{
    if kademlias.len() == 0 {
        0
    } else {
        refusals(kademlias.drop_last(), key, value) + (if takes_record(
            kademlias.last().dht,
            key,
            value,
        ) {
            0nat
        } else {
            1nat
        })
    }
}

/// A table after a query for the peers that are closest to one was started in it.
pub open spec fn with_search(kademlia: KademliaView, peer: Seq<u8>) -> KademliaView {
    KademliaView {
        dht: DhtView {
            queries: kademlia.dht.queries.insert(QueryView::ClosestPeers { peer }),
            ..kademlia.dht
        },
        ..kademlia
    }
}

/// Whether an address may enter the tables, by its first component: an IP address
/// that can be reached from anywhere, or a name.
pub open spec fn dht_takes(first: Option<ProtocolView>) -> bool {
    match first {
        Some(ProtocolView::Ip4(octets)) => is_global_ipv4(octets),
        Some(ProtocolView::Ip6(octets)) => is_global_ipv6(octets),
        Some(ProtocolView::Dns) | Some(ProtocolView::Dns4) | Some(ProtocolView::Dns6) => true,
        _ => false,
    }
}

/// Whether an address starts with a private IPv4 address.
pub open spec fn starts_private(address: Seq<u8>) -> bool {
    first_component(address) matches Some(ProtocolView::Ip4(octets)) && is_private_ipv4(octets)
}

/// What became of an address that a peer reported of itself.
#[derive(Debug)]
pub enum SelfReported {
    /// It was ignored, as it cannot be reached from anywhere.
    NonGlobal,
    /// It was ignored, as the peer takes part in none of the chains of the node.
    NoDht,
    /// It was noted for the chains whose protocols these are.
    Noted(Vec<Vec<u8>>),
}

/// The protocols of a list that are those of a table.
pub open spec fn shared_protocols(
    supported: Seq<Seq<u8>>,
    kademlias: Seq<KademliaView>,
) -> Seq<Seq<u8>> {
    supported.filter(|name: Seq<u8>| has_name(kademlias, name))
}

/// Whether a table goes by a name.
pub open spec fn has_name(kademlias: Seq<KademliaView>, name: Seq<u8>) -> bool {
    exists|i: int| 0 <= i < kademlias.len() && #[trigger] kademlias[i].dht.config.protocol == name
}

/// What is reported of buckets: the logarithm of the distance that each starts at, zero
/// where it starts at the node itself, and how many peers are in it.
pub open spec fn entry_list(buckets: Seq<(Option<u32>, usize)>) -> Seq<(u32, usize)> {
    Seq::new(
        buckets.len(),
        |i: int|
            (
                match buckets[i].0 {
                    Some(log) => log,
                    None => 0,
                },
                buckets[i].1,
            ),
    )
}

/// What is reported of buckets.
pub fn bucket_entries(buckets: &Vec<(Option<u32>, usize)>) -> (entries: Vec<(u32, usize)>)
    ensures
        entries@ == entry_list(buckets@),
{
    let mut entries: Vec<(u32, usize)> = Vec::new();
    let mut i: usize = 0;
    while i < buckets.len()
        invariant
            i <= buckets@.len(),
            entries@.len() == i,
            forall|j: int| 0 <= j < i ==> #[trigger] entries@[j] == entry_list(buckets@)[j],
        decreases buckets@.len() - i,
    {
        let log = match buckets[i].0 {
            Some(log) => log,
            None => 0,
        };
        entries.push((log, buckets[i].1));
        i = i + 1;
    }
    assert(entries@ =~= entry_list(buckets@));
    entries
}

impl DiscoveryBehaviour {
    /// The peers that are known: none are kept track of. The routing tables are walked all
    /// the same, which lets peers enter whose time has come.
    pub fn known_peers(&mut self) -> (peers: Vec<PeerId>)
        ensures
            final(self)@ == old(self)@,
            peers@.len() == 0,
    {
        let ghost before = self@;
        let mut i: usize = 0;
        while i < self.kademlias.len()
            invariant
                i <= self.kademlias@.len(),
                self@ == before,
            decreases before.kademlias.len() - i,
        {
            let _buckets = kbuckets(&mut self.kademlias[i].1);
            assert(self@.kademlias =~= before.kademlias);
            i = i + 1;
        }
        Vec::new()
    }

    /// Takes an address of a peer, which is not made use of.
    pub fn add_known_address(&mut self, peer_id: PeerId, addr: Multiaddr)
        ensures
            *final(self) == *old(self),
    {
    }

    /// Whether an address may enter the tables.
    pub fn can_add_to_dht(&self, addr: &Multiaddr) -> (r: bool)
        ensures
            r == dht_takes(first_component(addr@)),
    {
        match addr.first() {
            Some(Protocol::Ip4(octets)) => ipv4_is_global(octets),
            Some(Protocol::Ip6(octets)) => ipv6_is_global(octets),
            Some(Protocol::Dns) | Some(Protocol::Dns4) | Some(Protocol::Dns6) => true,
            _ => false,
        }
    }

    /// Whether a table goes by a name.
    fn serves(&self, name: &[u8]) -> (r: bool)
        ensures
            r == has_name(self@.kademlias, name@),
    {
        let mut i: usize = 0;
        while i < self.kademlias.len()
            invariant
                i <= self.kademlias@.len(),
                forall|j: int|
                    0 <= j < i ==> #[trigger] self@.kademlias[j].dht.config.protocol != name@,
            decreases self.kademlias@.len() - i,
        {
            if same_bytes(protocol_name(&self.kademlias[i].1).as_slice(), name) {
                assert(self@.kademlias[i as int].dht.config.protocol == name@);
                return true;
            }
            i = i + 1;
        }
        false
    }

    /// Looks at an address that a peer reported of itself, with the protocols that the
    /// peer supports.
    pub fn add_self_reported_address(
        &self,
        peer_id: &PeerId,
        supported_protocols: &Vec<Vec<u8>>,
        addr: &Multiaddr,
    ) -> (r: SelfReported)
        ensures
            ({
                let shared = shared_protocols(views(supported_protocols@), self@.kademlias);
                if !self@.allow_non_globals_in_dht && !dht_takes(first_component(addr@)) {
                    r is NonGlobal
                } else if shared.len() == 0 {
                    r is NoDht
                } else {
                    r matches SelfReported::Noted(names) && views(names@) == shared
                }
            }),
    {
        if !self.allow_non_globals_in_dht && !self.can_add_to_dht(addr) {
            return SelfReported::NonGlobal;
        }
        let ghost supported = views(supported_protocols@);
        let ghost shares = |name: Seq<u8>| has_name(self@.kademlias, name);
        let mut added: Vec<Vec<u8>> = Vec::new();
        let mut i: usize = 0;
        assert(views(added@) =~= supported.take(0).filter(shares)) by {
            reveal(Seq::filter);
        }
        while i < supported_protocols.len()
            invariant
                i <= supported_protocols@.len(),
                supported == views(supported_protocols@),
                shares == (|name: Seq<u8>| has_name(self@.kademlias, name)),
                views(added@) == supported.take(i as int).filter(shares),
            decreases supported_protocols@.len() - i,
        {
            let ghost before = added@;
            let name = supported_protocols[i].as_slice();
            proof {
                let next = supported.take(i + 1);
                assert(next.drop_last() =~= supported.take(i as int));
                assert(next.last() == name@);
                assert(next.filter(shares) == (if shares(name@) {
                    next.drop_last().filter(shares).push(name@)
                } else {
                    next.drop_last().filter(shares)
                })) by {
                    reveal(Seq::filter);
                }
            }
            if self.serves(name) {
                added.push(copy_bytes(name));
                assert(views(added@) =~= views(before).push(name@));
            }
            i = i + 1;
        }
        assert(supported.take(i as int) =~= supported);
        if added.len() == 0 {
            SelfReported::NoDht
        } else {
            SelfReported::Noted(added)
        }
    }

    /// Looks for the record under a key, in every table.
    pub fn get_value(&mut self, key: &[u8])
        ensures
            final(self)@ == (DiscoveryView {
                kademlias: final(self)@.kademlias,
                ..old(self)@
            }),
            final(self)@.kademlias.len() == old(self)@.kademlias.len(),
            forall|i: int|
                #![trigger final(self)@.kademlias[i]]
                0 <= i < old(self)@.kademlias.len() ==> asked_record(
                    old(self)@.kademlias[i],
                    final(self)@.kademlias[i],
                    key@,
                ),
            old(self)@.wf() ==> final(self)@.wf(),
    {
        let ghost before = self@;
        let mut i: usize = 0;
        while i < self.kademlias.len()
            invariant
                i <= self.kademlias@.len(),
                self@ == (DiscoveryView { kademlias: self@.kademlias, ..before }),
                self@.kademlias.len() == before.kademlias.len(),
                forall|j: int|
                    #![trigger self@.kademlias[j]]
                    0 <= j < i ==> asked_record(before.kademlias[j], self@.kademlias[j], key@),
                forall|j: int|
                    #![trigger self@.kademlias[j]]
                    i <= j < before.kademlias.len() ==> self@.kademlias[j] == before.kademlias[j],
            decreases before.kademlias.len() - i,
        {
            let ghost here = self@;
            get_record(&mut self.kademlias[i].1, key, Quorum::One);
            assert forall|j: int| #![trigger self@.kademlias[j]] 0 <= j < i implies asked_record(
                before.kademlias[j],
                self@.kademlias[j],
                key@,
            ) by {
                assert(self@.kademlias[j] == here.kademlias[j]);
            }
            assert forall|j: int|
                #![trigger self@.kademlias[j]]
                i < j < before.kademlias.len() implies self@.kademlias[j]
                == before.kademlias[j] by {
                assert(self@.kademlias[j] == here.kademlias[j]);
            }
            assert(here.kademlias[i as int] == before.kademlias[i as int]);
            i = i + 1;
        }
        proof {
            if before.wf() {
                assert(table_ids(self@.kademlias) =~= table_ids(before.kademlias)) by {
                    assert forall|j: int| 0 <= j < before.kademlias.len() implies (
                    #[trigger] self@.kademlias[j]).id == before.kademlias[j].id by {}
                }
                assert forall|j: int| 0 <= j < self@.kademlias.len() implies table_wf(
                    #[trigger] self@.kademlias[j],
                ) by {
                    assert(table_wf(before.kademlias[j]));
                    lemma_limits_without(before.kademlias[j].dht.records, key@);
                }
            }
        }
    }

    /// Puts a record into every table; of each that does not take it the node is told.
    pub fn put_value(&mut self, key: &[u8], value: Vec<u8>)
        ensures
            final(self)@ == (DiscoveryView {
                kademlias: old(self)@.kademlias.map_values(
                    |kademlia: KademliaView| with_record(kademlia, key@, value@),
                ),
                pending_events: old(self)@.pending_events + Seq::new(
                    refusals(old(self)@.kademlias, key@, value@),
                    |i: int| DiscoveryOutView::ValuePutFailed(key@, secs(0)),
                ),
                ..old(self)@
            }),
            old(self)@.wf() ==> final(self)@.wf(),
    {
        let ghost before = self@;
        let ghost failure = DiscoveryOutView::ValuePutFailed(key@, secs(0));
        let mut i: usize = 0;
        while i < self.kademlias.len()
            invariant
                i <= self.kademlias@.len(),
                failure == DiscoveryOutView::ValuePutFailed(key@, secs(0)),
                self@ == (DiscoveryView {
                    kademlias: self@.kademlias,
                    pending_events: self@.pending_events,
                    ..before
                }),
                self@.kademlias.len() == before.kademlias.len(),
                forall|j: int|
                    #![trigger self@.kademlias[j]]
                    0 <= j < i ==> self@.kademlias[j] == with_record(
                        before.kademlias[j],
                        key@,
                        value@,
                    ),
                forall|j: int|
                    #![trigger self@.kademlias[j]]
                    i <= j < before.kademlias.len() ==> self@.kademlias[j] == before.kademlias[j],
                self@.pending_events == before.pending_events + Seq::new(
                    refusals(before.kademlias.take(i as int), key@, value@),
                    |n: int| failure,
                ),
            decreases before.kademlias.len() - i,
        {
            let ghost here = self@;
            proof {
                let next = before.kademlias.take(i + 1);
                assert(next.drop_last() =~= before.kademlias.take(i as int));
                assert(next.last() == before.kademlias[i as int]);
                assert(here.kademlias[i as int] == before.kademlias[i as int]);
            }
            let result = put_record(
                &mut self.kademlias[i].1,
                key,
                value.as_slice(),
                Quorum::All,
            );
            let ghost after = self@.kademlias;
            assert forall|j: int| 0 <= j < before.kademlias.len() && j != i implies (
            #[trigger] after[j]) == here.kademlias[j] by {}
            assert(after[i as int] == with_record(before.kademlias[i as int], key@, value@));
            if result.is_err() {
                self.pending_events.push_back(
                    DiscoveryOut::ValuePutFailed(copy_bytes(key), Duration::from_secs(0)),
                );
                assert(self@.pending_events =~= here.pending_events.push(failure));
                assert(self@.pending_events =~= before.pending_events + Seq::new(
                    refusals(before.kademlias.take(i + 1), key@, value@),
                    |n: int| failure,
                ));
            } else {
                assert(self@.pending_events =~= here.pending_events);
            }
            assert(self@.kademlias == after);
            i = i + 1;
        }
        proof {
            assert(before.kademlias.take(i as int) =~= before.kademlias);
            assert(self@.kademlias =~= before.kademlias.map_values(
                |kademlia: KademliaView| with_record(kademlia, key@, value@),
            ));
            assert(self@.pending_events =~= before.pending_events + Seq::new(
                refusals(before.kademlias, key@, value@),
                |i: int| DiscoveryOutView::ValuePutFailed(key@, secs(0)),
            ));
            if before.wf() {
                assert(table_ids(self@.kademlias) =~= table_ids(before.kademlias));
                assert forall|j: int| 0 <= j < self@.kademlias.len() implies table_wf(
                    #[trigger] self@.kademlias[j],
                ) by {
                    assert(table_wf(before.kademlias[j]));
                    lemma_with_record(before.kademlias[j], key@, value@);
                }
            }
        }
    }

    /// The buckets of the routing table at an index that hold a peer.
    pub closed spec fn table_buckets(&self, index: int) -> Seq<(Option<u32>, usize)> {
        dht_buckets(self.kademlias@[index].1)
    }

    /// How many peers each bucket of each table holds. Peers whose time has come enter the
    /// routing tables first.
    pub fn num_entries_per_kbucket(&mut self) -> (r: Vec<(ProtocolId, Vec<(u32, usize)>)>)
        ensures
            final(self)@ == old(self)@,
            r@.len() == old(self)@.kademlias.len(),
            forall|i: int|
                #![trigger r@[i]]
                0 <= i < r@.len() ==> r@[i].0@ == old(self)@.kademlias[i].id && r@[i].1@
                    == entry_list(final(self).table_buckets(i)),
    {
        let ghost before = self@;
        let mut r: Vec<(ProtocolId, Vec<(u32, usize)>)> = Vec::new();
        let mut i: usize = 0;
        while i < self.kademlias.len()
            invariant
                i <= self.kademlias@.len(),
                self@ == before,
                r@.len() == i,
                forall|j: int|
                    #![trigger r@[j]]
                    0 <= j < i ==> r@[j].0@ == before.kademlias[j].id && r@[j].1@ == entry_list(
                        dht_buckets(self.kademlias@[j].1),
                    ),
            decreases before.kademlias.len() - i,
        {
            let ghost tables = self.kademlias@;
            let buckets = kbuckets(&mut self.kademlias[i].1);
            assert(self@.kademlias =~= before.kademlias);
            assert(forall|j: int| 0 <= j < i ==> self.kademlias@[j] == #[trigger] tables[j]);
            let id = self.kademlias[i].0.clone();
            assert(id@ == before.kademlias[i as int].id);
            r.push((id, bucket_entries(&buckets)));
            i = i + 1;
        }
        r
    }

    /// How many records each table keeps.
    pub fn num_kademlia_records(&mut self) -> (r: Vec<(ProtocolId, usize)>)
        ensures
            final(self)@ == old(self)@,
            r@.len() == old(self)@.kademlias.len(),
            forall|i: int|
                #![trigger r@[i]]
                0 <= i < r@.len() ==> r@[i].0@ == old(self)@.kademlias[i].id && r@[i].1 == old(
                    self,
                )@.kademlias[i].dht.records.len(),
    {
        let ghost before = self@;
        let mut r: Vec<(ProtocolId, usize)> = Vec::new();
        let mut i: usize = 0;
        while i < self.kademlias.len()
            invariant
                i <= self.kademlias@.len(),
                self@ == before,
                r@.len() == i,
                forall|j: int|
                    #![trigger r@[j]]
                    0 <= j < i ==> r@[j].0@ == before.kademlias[j].id && r@[j].1
                        == before.kademlias[j].dht.records.len(),
            decreases before.kademlias.len() - i,
        {
            assert(dht_view(self.kademlias@[i as int].1) == before.kademlias[i as int].dht);
            let values = stored_values(&mut self.kademlias[i].1);
            assert(self@.kademlias =~= before.kademlias);
            proof {
                lemma_listed(views(values@), before.kademlias[i as int].dht.records);
            }
            let id = self.kademlias[i].0.clone();
            assert(id@ == before.kademlias[i as int].id);
            r.push((id, values.len()));
            i = i + 1;
        }
        r
    }

    /// How many bytes the values in a list have together.
    fn list_total(values: &Vec<Vec<u8>>) -> (total: usize)
        requires
            values@.len() <= 1024,
            forall|i: int|
                0 <= i < values@.len() ==> (#[trigger] views(values@)[i]).len() < 65 * 1024,
        ensures
            total == list_size(views(values@)),
    {
        let ghost list = views(values@);
        let mut total: usize = 0;
        let mut i: usize = 0;
        while i < values.len()
            invariant
                i <= values@.len(),
                values@.len() <= 1024,
                list == views(values@),
                forall|j: int| 0 <= j < values@.len() ==> (#[trigger] list[j]).len() < 65 * 1024,
                total == list_size(list.take(i as int)),
                total <= i * 66560,
            decreases values@.len() - i,
        {
            proof {
                let next = list.take(i + 1);
                assert(next.drop_last() =~= list.take(i as int));
                assert(next.last() == list[i as int]);
                assert(list[i as int].len() < 65 * 1024);
            }
            total = total + values[i].len();
            i = i + 1;
        }
        assert(list.take(i as int) =~= list);
        total
    }

    /// How many bytes the values of the records in each table have together.
    pub fn kademlia_records_total_size(&mut self) -> (r: Vec<(ProtocolId, usize)>)
        requires
            old(self)@.wf(),
        ensures
            final(self)@ == old(self)@,
            r@.len() == old(self)@.kademlias.len(),
            forall|i: int|
                #![trigger r@[i]]
                0 <= i < r@.len() ==> r@[i].0@ == old(self)@.kademlias[i].id && r@[i].1
                    == total_size(old(self)@.kademlias[i].dht.records),
    {
        let ghost before = self@;
        let mut r: Vec<(ProtocolId, usize)> = Vec::new();
        let mut i: usize = 0;
        while i < self.kademlias.len()
            invariant
                i <= self.kademlias@.len(),
                self@ == before,
                before.wf(),
                r@.len() == i,
                forall|j: int|
                    #![trigger r@[j]]
                    0 <= j < i ==> r@[j].0@ == before.kademlias[j].id && r@[j].1 == total_size(
                        before.kademlias[j].dht.records,
                    ),
            decreases before.kademlias.len() - i,
        {
            assert(table_wf(before.kademlias[i as int]));
            assert(dht_view(self.kademlias@[i as int].1) == before.kademlias[i as int].dht);
            let values = stored_values(&mut self.kademlias[i].1);
            assert(self@.kademlias =~= before.kademlias);
            proof {
                lemma_listed(views(values@), before.kademlias[i as int].dht.records);
            }
            let id = self.kademlias[i].0.clone();
            assert(id@ == before.kademlias[i as int].id);
            r.push((id, Self::list_total(&values)));
            i = i + 1;
        }
        r
    }
}

/// The addresses of a list that may be handed out: all of them, or those that do not
/// start with a private IPv4 address.
pub open spec fn handed_out(allow_private_ipv4: bool, list: Seq<Seq<u8>>) -> Seq<Seq<u8>> {
    if allow_private_ipv4 {
        list
    } else {
        list.filter(|address: Seq<u8>| !starts_private(address))
    }
}

/// The addresses of a list that may be handed out.
pub fn filter_addresses(allow_private_ipv4: bool, list: Vec<Multiaddr>) -> (kept: Vec<Multiaddr>)
    ensures
        address_views(kept@) == handed_out(allow_private_ipv4, address_views(list@)),
{
    if allow_private_ipv4 {
        return list;
    }
    let ghost all = address_views(list@);
    let ghost open = |address: Seq<u8>| !starts_private(address);
    let mut kept: Vec<Multiaddr> = Vec::new();
    let mut i: usize = 0;
    assert(address_views(kept@) =~= all.take(0).filter(open)) by {
        reveal(Seq::filter);
    }
    while i < list.len()
        invariant
            i <= list@.len(),
            all == address_views(list@),
            open == (|address: Seq<u8>| !starts_private(address)),
            address_views(kept@) == all.take(i as int).filter(open),
        decreases list@.len() - i,
    {
        let ghost before = kept@;
        let address = list[i].clone();
        proof {
            let next = all.take(i + 1);
            assert(next.drop_last() =~= all.take(i as int));
            assert(next.last() == address@);
            assert(next.filter(open) == (if open(address@) {
                next.drop_last().filter(open).push(address@)
            } else {
                next.drop_last().filter(open)
            })) by {
                reveal(Seq::filter);
            }
        }
        let private = match address.first() {
            Some(Protocol::Ip4(octets)) => ipv4_is_private(octets),
            _ => false,
        };
        if !private {
            kept.push(address);
            assert(address_views(kept@) =~= address_views(before).push(address@));
        }
        i = i + 1;
    }
    assert(all.take(i as int) =~= all);
    kept
}

/// Whether lists hold, table by table, the addresses that the tables hold for a peer, those
/// of the routing table first and in order.
pub open spec fn lists_addresses(
    discovery: DiscoveryBehaviour,
    peer: Seq<u8>,
    known: Seq<Seq<Seq<u8>>>,
) -> bool {
    &&& known.len() == discovery@.kademlias.len()
    &&& forall|i: int|
        0 <= i < known.len() ==> (#[trigger] known[i]).to_multiset() == discovery.table_addresses(
            i,
            peer,
        ) && discovery.routed_addresses(i, peer).is_prefix_of(known[i])
}

/// Whether a list is that of the addresses that the tables hold for a peer, those of the
/// first table first, as far as they may be handed out.
pub open spec fn hands_out(
    discovery: DiscoveryBehaviour,
    peer: Seq<u8>,
    addresses: Seq<Seq<u8>>,
) -> bool {
    exists|known: Seq<Seq<Seq<u8>>>| #[trigger]
        lists_addresses(discovery, peer, known) && addresses == handed_out(
            discovery@.allow_private_ipv4,
            known.flatten(),
        )
}

/// The address under which the node is reached at an address.
pub open spec fn own_address(address: Seq<u8>, local_peer_id: Seq<u8>) -> Seq<u8> {
    address + p2p_component(local_peer_id)
}

impl DiscoveryBehaviour {
    /// How many tables there are.
    pub fn num_kademlias(&self) -> (n: usize)
        ensures
            n == self@.kademlias.len(),
    {
        self.kademlias.len()
    }

    /// The chain that a table is for.
    pub fn protocol_id(&self, index: usize) -> (id: &ProtocolId)
        requires
            index < self@.kademlias.len(),
        ensures
            id@ == self@.kademlias[index as int].id,
    {
        &self.kademlias[index].0
    }

    /// A table, for the network to drive it.
    pub fn kademlia_mut(&mut self, index: usize) -> (dht: &mut Dht)
        requires
            index < old(self)@.kademlias.len(),
        ensures
            dht_view(*dht) == old(self)@.kademlias[index as int].dht,
            final(self)@ == with_table(old(self)@, index as int, dht_view(*final(dht))),
            old(self)@.wf() && table_wf(
                KademliaView {
                    dht: dht_view(*final(dht)),
                    ..old(self)@.kademlias[index as int]
                },
            ) ==> final(self)@.wf(),
    {
        proof {
            lemma_one_table(self@, index as int);
        }
        let dht = &mut self.kademlias[index].1;
        dht
    }

    /// When the next random query is due.
    pub fn next_query_at(&self) -> (due: Instant)
        ensures
            due == self@.next_kad_random_query,
    {
        self.next_kad_random_query
    }

    /// Whether peers are looked for on the local network.
    pub fn uses_mdns(&self) -> (r: bool)
        ensures
            r == self@.mdns,
    {
        self.mdns
    }

    /// The addresses that the table at an index holds for a peer.
    pub closed spec fn table_addresses(&self, index: int, peer: Seq<u8>) -> Multiset<Seq<u8>> {
        dht_addresses(self.kademlias@[index].1, peer)
    }

    /// The addresses that the routing table at an index holds for a peer, in order.
    pub closed spec fn routed_addresses(&self, index: int, peer: Seq<u8>) -> Seq<Seq<u8>> {
        dht_routed(self.kademlias@[index].1, peer)
    }

    /// The addresses of a peer that the tables know, table by table, as far as they
    /// may be handed out.
    pub fn addresses_of_peer(&mut self, peer_id: &PeerId) -> (addresses: Vec<Multiaddr>)
        ensures
            final(self)@ == old(self)@,
            hands_out(*final(self), peer_id@, address_views(addresses@)),
            !old(self)@.allow_private_ipv4 ==> forall|i: int|
                0 <= i < addresses@.len() ==> !starts_private((#[trigger] addresses@[i])@),
            old(self)@.kademlias.len() == 0 ==> addresses@.len() == 0,
    {
        let ghost before = self@;
        let mut list: Vec<Multiaddr> = Vec::new();
        let ghost mut lists: Seq<Seq<Seq<u8>>> = Seq::empty();
        let mut i: usize = 0;
        assert(address_views(list@) =~= lists.flatten());
        while i < self.kademlias.len()
            invariant
                i <= self.kademlias@.len(),
                self@ == before,
                i == 0 ==> list@.len() == 0,
                lists.len() == i,
                address_views(list@) == lists.flatten(),
                forall|k: int|
                    0 <= k < i ==> (#[trigger] lists[k]).to_multiset() == dht_addresses(
                        self.kademlias@[k].1,
                        peer_id@,
                    ) && dht_routed(self.kademlias@[k].1, peer_id@).is_prefix_of(lists[k]),
            decreases before.kademlias.len() - i,
        {
            let ghost tables = self.kademlias@;
            let known = known_addresses(&mut self.kademlias[i].1, peer_id.as_bytes());
            assert(self@.kademlias =~= before.kademlias);
            let ghost found = views(known@);
            let mut j: usize = 0;
            assert(address_views(list@) =~= lists.flatten() + found.take(0));
            while j < known.len()
                invariant
                    j <= known@.len(),
                    found == views(known@),
                    forall|k: int| 0 <= k < known@.len() ==> is_address((#[trigger] known@[k])@),
                    address_views(list@) == lists.flatten() + found.take(j as int),
                decreases known@.len() - j,
            {
                let ghost so_far = list@;
                assert(is_address(known@[j as int]@));
                if let Some(address) = Multiaddr::from_bytes(copy_bytes(known[j].as_slice())) {
                    list.push(address);
                    assert(address_views(list@) =~= address_views(so_far).push(found[j as int]));
                }
                assert(found.take(j + 1) =~= found.take(j as int).push(found[j as int]));
                assert(address_views(list@) =~= lists.flatten() + found.take(j + 1));
                j = j + 1;
            }
            proof {
                let longer = lists.push(found);
                assert(found.take(j as int) =~= found);
                lists.lemma_flatten_push(found);
                assert forall|k: int| 0 <= k < i + 1 implies (#[trigger] longer[k]).to_multiset()
                    == dht_addresses(self.kademlias@[k].1, peer_id@) && dht_routed(
                    self.kademlias@[k].1,
                    peer_id@,
                ).is_prefix_of(longer[k]) by {
                    if k < i {
                        assert(longer[k] == lists[k]);
                        assert(self.kademlias@[k] == tables[k]);
                    }
                }
                lists = longer;
            }
            i = i + 1;
        }
        assert(lists_addresses(*self, peer_id@, lists));
        let kept = filter_addresses(self.allow_private_ipv4, list);
        proof {
            assert(address_views(kept@).len() == kept@.len());
            if before.kademlias.len() == 0 {
                assert(address_views(list@).len() == 0);
                address_views(list@).lemma_filter_len(
                    |address: Seq<u8>| !starts_private(address),
                );
            }
            if !before.allow_private_ipv4 {
                let open = |address: Seq<u8>| !starts_private(address);
                assert forall|i: int| 0 <= i < kept@.len() implies !starts_private(
                    (#[trigger] kept@[i])@,
                ) by {
                    address_views(list@).lemma_filter_pred(open, i);
                    assert(address_views(kept@)[i] == kept@[i]@);
                }
            }
        }
        kept
    }

    /// How many connections there are.
    pub fn num_connections(&self) -> (n: u64)
        ensures
            n == self@.num_connections,
    {
        self.num_connections
    }

    /// Counts a connection that was established.
    pub fn inject_connection_established(&mut self)
        requires
            old(self)@.num_connections < u64::MAX,
        ensures
            final(self)@ == (DiscoveryView {
                num_connections: (old(self)@.num_connections + 1) as u64,
                ..old(self)@
            }),
            old(self)@.wf() ==> final(self)@.wf(),
    {
        self.num_connections = self.num_connections + 1;
    }

    /// Counts a connection that was closed.
    pub fn inject_connection_closed(&mut self)
        requires
            old(self)@.num_connections > 0,
        ensures
            final(self)@ == (DiscoveryView {
                num_connections: (old(self)@.num_connections - 1) as u64,
                ..old(self)@
            }),
            old(self)@.wf() ==> final(self)@.wf(),
    {
        self.num_connections = self.num_connections - 1;
    }

    /// Which table an event is for that came under the identity of a chain.
    pub fn inject_event(&self, pid: &ProtocolId) -> (index: Option<usize>)
        ensures
            match index {
                Some(i) => i < self@.kademlias.len() && self@.kademlias[i as int].id == pid@,
                None => !table_ids(self@.kademlias).contains(pid@),
            },
    {
        let mut i: usize = 0;
        while i < self.kademlias.len()
            invariant
                i <= self.kademlias@.len(),
                forall|j: int| 0 <= j < i ==> table_ids(self@.kademlias)[j] != pid@,
            decreases self.kademlias@.len() - i,
        {
            if self.kademlias[i].0.same(pid) {
                return Some(i);
            }
            i = i + 1;
        }
        None
    }

    /// Takes note of an address under which the node is reached, and gives it, with the
    /// identity of the node, where it was not known.
    pub fn inject_new_external_addr(&mut self, addr: &Multiaddr) -> (new: Option<Multiaddr>)
        requires
            old(self)@.wf(),
        ensures
            final(self)@ == (DiscoveryView {
                known_external_addresses: old(self)@.known_external_addresses.inserted(
                    own_address(addr@, old(self)@.local_peer_id),
                ),
                ..old(self)@
            }),
            final(self)@.wf(),
            new is None <==> old(self)@.known_external_addresses.list.contains(
                own_address(addr@, old(self)@.local_peer_id),
            ),
            new matches Some(address) ==> address@ == own_address(
                addr@,
                old(self)@.local_peer_id,
            ),
    {
        let new_addr = addr.with_peer(&self.local_peer_id);
        if self.known_external_addresses.insert(new_addr.clone()) {
            Some(new_addr)
        } else {
            None
        }
    }
}

/// What a table reports.
#[derive(Debug)]
pub enum KademliaEvent {
    /// A peer entered the routing table.
    RoutingUpdated { peer: PeerId },
    /// A peer of which no address is known is connected.
    UnroutablePeer { peer: PeerId },
    /// A peer could enter the routing table.
    RoutablePeer { peer: PeerId },
    /// A peer may enter the routing table later.
    PendingRoutablePeer { peer: PeerId },
    /// A query for the closest peers ended.
    GetClosestPeers,
    /// A query for a record ended: with the records, or without one under its key.
    GetRecord { result: Result<Vec<(Vec<u8>, Vec<u8>)>, Vec<u8>>, duration: Option<Duration> },
    /// Spreading the record under a key ended.
    PutRecord { result: Result<Vec<u8>, Vec<u8>>, duration: Option<Duration> },
    /// A record was spread again, or was not.
    RepublishRecord,
    /// Something else.
    Other,
}

/// What looking for peers on the local network reports.
#[derive(Debug)]
pub enum MdnsEvent {
    /// Peers were found, each at an address.
    Discovered(Vec<(PeerId, Multiaddr)>),
    /// Peers were not heard of for some time.
    Expired,
}

/// What is to be done next for discovery.
#[derive(Debug)]
pub enum DiscoveryStep<P> {
    /// Tell the node.
    Event(DiscoveryOut),
    /// Carry out an action that the table of a chain, or the search on the local
    /// network, asks for.
    Forward { protocol: Option<ProtocolId>, action: P },
    /// Look at the table at an index.
    PollKademlia(usize),
    /// Look at the search on the local network.
    PollMdns,
    /// Nothing.
    Pending,
}

/// The time that a query took; none where it is not known.
pub open spec fn known_duration(duration: Option<Duration>) -> Duration {
    match duration {
        Some(duration) => duration,
        None => Duration { nanos: 0 },
    }
}

/// What the node is told of an event of a table, if it is told anything.
pub open spec fn told(event: KademliaEvent) -> Option<DiscoveryOutView> {
    match event {
        KademliaEvent::RoutingUpdated { peer } => Some(DiscoveryOutView::Discovered(peer@)),
        KademliaEvent::UnroutablePeer { peer } => Some(DiscoveryOutView::UnroutablePeer(peer@)),
        KademliaEvent::RoutablePeer { peer } => Some(DiscoveryOutView::Discovered(peer@)),
        KademliaEvent::GetRecord { result: Ok(records), duration } => Some(
            DiscoveryOutView::ValueFound(record_views(records@), known_duration(duration)),
        ),
        KademliaEvent::GetRecord { result: Err(key), duration } => Some(
            DiscoveryOutView::ValueNotFound(key@, known_duration(duration)),
        ),
        KademliaEvent::PutRecord { result: Ok(key), duration } => Some(
            DiscoveryOutView::ValuePut(key@, known_duration(duration)),
        ),
        KademliaEvent::PutRecord { result: Err(key), duration } => Some(
            DiscoveryOutView::ValuePutFailed(key@, known_duration(duration)),
        ),
        _ => None,
    }
}

/// Whether a step tells the node something.
pub open spec fn tells<P>(step: DiscoveryStep<P>, out: DiscoveryOutView) -> bool {
    step matches DiscoveryStep::Event(event) && event@ == out
}

/// Whether a step goes on to the table at an index, or past the last one.
pub open spec fn goes_on<P>(step: DiscoveryStep<P>, view: DiscoveryView, index: int) -> bool {
    if index < view.kademlias.len() {
        step matches DiscoveryStep::PollKademlia(i) && i == index
    } else if view.mdns {
        step is PollMdns
    } else {
        step is Pending
    }
}

/// The delay that follows a delay: twice as long, up to the limit.
pub open spec fn next_delay(delay: Duration) -> Duration {
    if 2 * delay.nanos <= secs(MAX_QUERY_DELAY_SECS as nat).nanos {
        Duration { nanos: (2 * delay.nanos) as u128 }
    } else {
        secs(MAX_QUERY_DELAY_SECS as nat)
    }
}

/// The delay before the query that follows `n` others.
pub open spec fn nth_delay(n: nat) -> Duration
    decreases n,
{
    if n == 0 {
        secs(FIRST_QUERY_DELAY_SECS as nat)
    } else {
        next_delay(nth_delay((n - 1) as nat))
    }
}

/// Discovery once its timer has run out: the timer is set again, to a longer delay.
pub open spec fn rearmed(view: DiscoveryView, now: Instant) -> DiscoveryView {
    DiscoveryView {
        next_kad_random_query: later(now, view.duration_to_next_kad),
        duration_to_next_kad: next_delay(view.duration_to_next_kad),
        ..view
    }
}

/// Discovery once a query for a peer was started in every table.
pub open spec fn searching(view: DiscoveryView, peer: Seq<u8>) -> DiscoveryView {
    DiscoveryView {
        kademlias: view.kademlias.map_values(
            |kademlia: KademliaView| with_search(kademlia, peer),
        ),
        ..view
    }
}

/// Whether every table got one more query, for the peers that are closest to one, and
/// nothing else of any table changed, between two states of the tables.
pub open spec fn queried_everywhere(
    before: Seq<KademliaView>,
    after: Seq<KademliaView>,
    peer: Seq<u8>,
) -> bool {
    &&& after.len() == before.len()
    &&& forall|i: int|
        #![trigger after[i]]
        0 <= i < before.len() ==> {
            &&& after[i].id == before[i].id
            &&& after[i].dht.queries == before[i].dht.queries.insert(
                QueryView::ClosestPeers { peer },
            )
            &&& after[i].dht.records == before[i].dht.records
            &&& after[i].dht.config == before[i].dht.config
            &&& after[i].dht.local == before[i].dht.local
        }
}

/// Whether queries for the peer with an identity were started in every table, between
/// two states, and the timer was set again.
pub open spec fn started(
    before: DiscoveryView,
    after: DiscoveryView,
    now: Instant,
    peer: Seq<u8>,
) -> bool {
    is_peer_id(peer) && after == rearmed(searching(before, peer), now)
}

/// Whether the timer for random queries has run out when discovery is looked at: what
/// waits to be told comes before the timer.
pub open spec fn expires(view: DiscoveryView, now: Instant) -> bool {
    view.pending_events.len() == 0 && now.nanos >= view.next_kad_random_query.nanos
}

/// Whether there are as many connections as pause discovery.
pub open spec fn paused(view: DiscoveryView) -> bool {
    view.num_connections >= view.discovery_only_if_under_num
}

/// Whether a step tells the node that random queries were started.
pub open spec fn tells_start<P>(step: DiscoveryStep<P>) -> bool {
    step matches DiscoveryStep::Event(DiscoveryOut::RandomKademliaStarted(_))
}

/// Whether looking at discovery leads from one state to another.
pub open spec fn polled_state(before: DiscoveryView, after: DiscoveryView, now: Instant) -> bool {
    if before.pending_events.len() > 0 {
        after == (DiscoveryView {
            pending_events: before.pending_events.drop_first(),
            ..before
        })
    } else if !expires(before, now) {
        after == before
    } else if paused(before) {
        after == rearmed(before, now)
    } else {
        exists|peer: Seq<u8>| started(before, after, now, peer)
    }
}

/// The peers that were found on the local network, as the node is told of them.
pub open spec fn discovered(list: Seq<(PeerId, Multiaddr)>) -> Seq<DiscoveryOutView> {
    Seq::new(list.len(), |i: int| DiscoveryOutView::Discovered(list[i].0@))
}

impl DiscoveryBehaviour {
    /// Goes on to the table at an index, or past the last one.
    fn go_on<P>(&self, index: usize) -> (step: DiscoveryStep<P>)
        ensures
            goes_on(step, self@, index as int),
    {
        if index < self.kademlias.len() {
            DiscoveryStep::PollKademlia(index)
        } else if self.mdns {
            DiscoveryStep::PollMdns
        } else {
            DiscoveryStep::Pending
        }
    }

    /// Starts a query for the peers that are closest to one, in every table.
    pub fn search(&mut self, peer: &PeerId)
        ensures
            final(self)@ == searching(old(self)@, peer@),
            old(self)@.wf() ==> final(self)@.wf(),
    {
        let ghost before = self@;
        let mut i: usize = 0;
        while i < self.kademlias.len()
            invariant
                i <= self.kademlias@.len(),
                self@ == (DiscoveryView { kademlias: self@.kademlias, ..before }),
                self@.kademlias.len() == before.kademlias.len(),
                forall|j: int|
                    #![trigger self@.kademlias[j]]
                    0 <= j < i ==> self@.kademlias[j] == with_search(before.kademlias[j], peer@),
                forall|j: int|
                    #![trigger self@.kademlias[j]]
                    i <= j < before.kademlias.len() ==> self@.kademlias[j] == before.kademlias[j],
            decreases before.kademlias.len() - i,
        {
            let ghost here = self@;
            get_closest_peers(&mut self.kademlias[i].1, peer.as_bytes());
            assert(here.kademlias[i as int] == before.kademlias[i as int]);
            assert forall|j: int| 0 <= j < before.kademlias.len() && j != i implies (
            #[trigger] self@.kademlias[j]) == here.kademlias[j] by {}
            i = i + 1;
        }
        assert(self@.kademlias =~= searching(before, peer@).kademlias);
        proof {
            if before.wf() {
                assert(table_ids(self@.kademlias) =~= table_ids(before.kademlias));
                assert forall|j: int| 0 <= j < self@.kademlias.len() implies table_wf(
                    #[trigger] self@.kademlias[j],
                ) by {
                    assert(table_wf(before.kademlias[j]));
                }
            }
        }
    }

    /// The chains of the tables.
    fn ids(&self) -> (ids: Vec<ProtocolId>)
        ensures
            id_views(ids@) == table_ids(self@.kademlias),
    {
        let mut ids: Vec<ProtocolId> = Vec::new();
        let mut i: usize = 0;
        while i < self.kademlias.len()
            invariant
                i <= self.kademlias@.len(),
                ids@.len() == i,
                forall|j: int| 0 <= j < i ==> (#[trigger] ids@[j])@ == self@.kademlias[j].id,
            decreases self.kademlias@.len() - i,
        {
            let id = self.kademlias[i].0.clone();
            assert(id@ == self@.kademlias[i as int].id);
            ids.push(id);
            i = i + 1;
        }
        assert(id_views(ids@) =~= table_ids(self@.kademlias));
        ids
    }

    /// What is to be done for discovery now: what waits to be told is told, the oldest
    /// first; then, where the timer has run out, it is set again, and unless there are
    /// as many connections as pause discovery a query for a random peer is started in
    /// every table; then the tables are looked at in turn.
    pub fn poll<P>(&mut self, now: Instant) -> (step: DiscoveryStep<P>)
        requires
            old(self)@.wf(),
        ensures
            final(self)@.wf(),
            polled_state(old(self)@, final(self)@, now),
            ({
                let before = old(self)@;
                if before.pending_events.len() > 0 {
                    tells(step, before.pending_events[0])
                } else if expires(before, now) && !paused(before) {
                    tells(
                        step,
                        DiscoveryOutView::RandomKademliaStarted(table_ids(before.kademlias)),
                    )
                } else {
                    goes_on(step, before, 0)
                }
            }),
            paused(old(self)@) ==> !tells_start(step) && final(self)@.kademlias == old(
                self,
            )@.kademlias,
            old(self)@.num_connections >= old(self)@.discovery_only_if_under_num ==> !(
            step matches DiscoveryStep::Event(DiscoveryOut::RandomKademliaStarted(_)))
                && final(self)@.kademlias == old(self)@.kademlias,
            old(self)@.num_connections < old(self)@.discovery_only_if_under_num && old(
                self,
            )@.pending_events.len() == 0 && now.nanos >= old(self)@.next_kad_random_query.nanos
                ==> (step matches DiscoveryStep::Event(DiscoveryOut::RandomKademliaStarted(ids))
                && ids@.len() == old(self)@.kademlias.len()) && exists|peer: Seq<u8>| #[trigger]
                queried_everywhere(old(self)@.kademlias, final(self)@.kademlias, peer),
            old(self)@.pending_events.len() == 0 && now.nanos >= old(
                self,
            )@.next_kad_random_query.nanos && now.nanos + old(self)@.duration_to_next_kad.nanos
                <= u128::MAX ==> final(self)@.next_kad_random_query.nanos == now.nanos + old(
                self,
            )@.duration_to_next_kad.nanos,
            old(self)@.pending_events.len() == 0 && now.nanos < old(
                self,
            )@.next_kad_random_query.nanos ==> final(self)@ == old(self)@,
    {
        let ghost before = self@;
        if let Some(event) = self.pending_events.pop_front() {
            assert(self@.pending_events =~= before.pending_events.drop_first());
            assert(event@ == before.pending_events[0]);
            assert(self@.kademlias == before.kademlias);
            proof {
                assert forall|j: int| 0 <= j < self@.pending_events.len() implies !((
                #[trigger] self@.pending_events[j]) is RandomKademliaStarted) by {
                    assert(self@.pending_events[j] == before.pending_events[j + 1]);
                }
                assert(!(before.pending_events[0] is RandomKademliaStarted));
            }
            return DiscoveryStep::Event(event);
        }
        if now.nanos < self.next_kad_random_query.nanos {
            return self.go_on(0);
        }
        let starts = self.num_connections < self.discovery_only_if_under_num;
        let ghost mut peer: Seq<u8> = Seq::empty();
        if starts {
            if let Some(random_peer_id) = PeerId::from_bytes(random_peer_id()) {
                proof {
                    peer = random_peer_id@;
                }
                self.search(&random_peer_id);
            }
        }
        let ghost searched = self@;
        self.next_kad_random_query = now.after(self.duration_to_next_kad);
        let doubled: u128 = 2 * self.duration_to_next_kad.nanos;
        let longest = Duration::from_secs(MAX_QUERY_DELAY_SECS);
        self.duration_to_next_kad = if doubled <= longest.nanos {
            Duration { nanos: doubled }
        } else {
            longest
        };
        assert(self@ =~= rearmed(searched, now));
        if starts {
            proof {
                assert(table_ids(self@.kademlias) =~= table_ids(before.kademlias));
                assert(started(before, self@, now, peer));
                assert(queried_everywhere(before.kademlias, self@.kademlias, peer));
            }
            return DiscoveryStep::Event(DiscoveryOut::RandomKademliaStarted(self.ids()));
        }
        self.go_on(0)
    }

    /// What is to be done next once the table at an index was looked at: an event is
    /// told, or the table is looked at again; an action is passed on; and where nothing
    /// came of it, it is the turn of the next one.
    pub fn poll_kademlia<P>(&self, index: usize, polled: Polled<KademliaEvent, P>) -> (step:
        DiscoveryStep<P>)
        requires
            index < self@.kademlias.len(),
        ensures
            match polled {
                Polled::Pending => goes_on(step, self@, index + 1),
                Polled::Event(event) => match told(event) {
                    Some(out) => tells(step, out),
                    None => step == DiscoveryStep::<P>::PollKademlia(index),
                },
                Polled::Forward(p) => step matches DiscoveryStep::Forward {
                    protocol: Some(id),
                    action,
                } && id@ == self@.kademlias[index as int].id && action == p,
            },
            polled matches Polled::Event(KademliaEvent::RoutingUpdated { peer }) ==> (
            step matches DiscoveryStep::Event(DiscoveryOut::Discovered(p)) && p@ == peer@),
            polled matches Polled::Event(KademliaEvent::RoutablePeer { peer }) ==> (
            step matches DiscoveryStep::Event(DiscoveryOut::Discovered(p)) && p@ == peer@),
            polled matches Polled::Event(KademliaEvent::UnroutablePeer { peer }) ==> (
            step matches DiscoveryStep::Event(DiscoveryOut::UnroutablePeer(p)) && p@ == peer@),
            polled matches Polled::Event(
                KademliaEvent::GetRecord { result: Ok(records), duration },
            ) ==> (step matches DiscoveryStep::Event(DiscoveryOut::ValueFound(list, time))
                && record_views(list@) == record_views(records@) && time.nanos
                == if let Some(d) = duration {
                d.nanos
            } else {
                0
            }),
            polled matches Polled::Event(
                KademliaEvent::GetRecord { result: Err(key), duration },
            ) ==> (step matches DiscoveryStep::Event(DiscoveryOut::ValueNotFound(k, time)) && k@
                == key@ && time.nanos == if let Some(d) = duration {
                d.nanos
            } else {
                0
            }),
            polled matches Polled::Event(
                KademliaEvent::PutRecord { result: Ok(key), duration },
            ) ==> (step matches DiscoveryStep::Event(DiscoveryOut::ValuePut(k, time)) && k@ == key@
                && time.nanos == if let Some(d) = duration {
                d.nanos
            } else {
                0
            }),
            polled matches Polled::Event(
                KademliaEvent::PutRecord { result: Err(key), duration },
            ) ==> (step matches DiscoveryStep::Event(DiscoveryOut::ValuePutFailed(k, time)) && k@
                == key@ && time.nanos == if let Some(d) = duration {
                d.nanos
            } else {
                0
            }),
            polled is Pending && index + 1 < self@.kademlias.len() ==> (
            step matches DiscoveryStep::PollKademlia(i) && i == index + 1),
            polled is Pending && index + 1 == self@.kademlias.len() ==> if self@.mdns {
                step is PollMdns
            } else {
                step is Pending
            },
    {
        let event = match polled {
            Polled::Pending => {
                let tables = self.kademlias.len();
                assert(index < tables);
                return self.go_on(index + 1);
            },
            Polled::Forward(action) => {
                let protocol = Some(self.kademlias[index].0.clone());
                return DiscoveryStep::Forward { protocol, action };
            },
            Polled::Event(event) => event,
        };
        let out = match event {
            KademliaEvent::RoutingUpdated { peer } => DiscoveryOut::Discovered(peer),
            KademliaEvent::UnroutablePeer { peer } => DiscoveryOut::UnroutablePeer(peer),
            KademliaEvent::RoutablePeer { peer } => DiscoveryOut::Discovered(peer),
            KademliaEvent::GetRecord { result, duration } => {
                let time = Self::duration_or_none(duration);
                match result {
                    Ok(records) => DiscoveryOut::ValueFound(records, time),
                    Err(key) => DiscoveryOut::ValueNotFound(key, time),
                }
            },
            KademliaEvent::PutRecord { result, duration } => {
                let time = Self::duration_or_none(duration);
                match result {
                    Ok(key) => DiscoveryOut::ValuePut(key, time),
                    Err(key) => DiscoveryOut::ValuePutFailed(key, time),
                }
            },
            _ => {
                return DiscoveryStep::PollKademlia(index);
            },
        };
        DiscoveryStep::Event(out)
    }

    /// The time that a query took; none where it is not known.
    fn duration_or_none(duration: Option<Duration>) -> (d: Duration)
        ensures
            d == known_duration(duration),
    {
        match duration {
            Some(duration) => duration,
            None => Duration { nanos: 0 },
        }
    }

    /// What is to be done next once the search on the local network was looked at. The
    /// peers that it found are told one by one, unless there are as many connections as
    /// pause discovery.
    pub fn poll_mdns<P>(&mut self, polled: Polled<MdnsEvent, P>) -> (step: DiscoveryStep<P>)
        ensures
            match polled {
                Polled::Pending => step is Pending && final(self)@ == old(self)@,
                Polled::Forward(p) => step == (DiscoveryStep::<P>::Forward {
                    protocol: None,
                    action: p,
                }) && final(self)@ == old(self)@,
                Polled::Event(MdnsEvent::Expired) => step is PollMdns && final(self)@ == old(self)@,
                Polled::Event(MdnsEvent::Discovered(list)) => {
                    let queue = old(self)@.pending_events + discovered(list@);
                    if old(self)@.num_connections >= old(self)@.discovery_only_if_under_num {
                        step is PollMdns && final(self)@ == old(self)@
                    } else if queue.len() == 0 {
                        step is PollMdns && final(self)@ == old(self)@
                    } else {
                        &&& tells(step, queue[0])
                        &&& final(self)@ == (DiscoveryView {
                            pending_events: queue.drop_first(),
                            ..old(self)@
                        })
                    }
                },
            },
            old(self)@.wf() ==> final(self)@.wf(),
            polled matches Polled::Event(MdnsEvent::Discovered(list)) ==> (old(
                self,
            )@.num_connections < old(self)@.discovery_only_if_under_num && old(
                self,
            )@.pending_events.len() == 0 && list@.len() > 0 ==> (
            step matches DiscoveryStep::Event(DiscoveryOut::Discovered(p)) && p@ == list@[0].0@)
                && final(self)@.pending_events.len() == list@.len() - 1 && forall|i: int|
                1 <= i < list@.len() ==> final(self)@.pending_events[i - 1]
                    == DiscoveryOutView::Discovered((#[trigger] list@[i]).0@)),
    {
        let list = match polled {
            Polled::Pending => {
                return DiscoveryStep::Pending;
            },
            Polled::Forward(action) => {
                return DiscoveryStep::Forward { protocol: None, action };
            },
            Polled::Event(MdnsEvent::Expired) => {
                return DiscoveryStep::PollMdns;
            },
            Polled::Event(MdnsEvent::Discovered(list)) => list,
        };
        if self.num_connections >= self.discovery_only_if_under_num {
            return DiscoveryStep::PollMdns;
        }
        let ghost before = self@;
        let mut i: usize = 0;
        while i < list.len()
            invariant
                i <= list@.len(),
                self@ == (DiscoveryView { pending_events: self@.pending_events, ..before }),
                self@.pending_events == before.pending_events + discovered(list@).take(i as int),
            decreases list@.len() - i,
        {
            let ghost here = self@;
            let peer = list[i].0.clone();
            self.pending_events.push_back(DiscoveryOut::Discovered(peer));
            assert(self@.pending_events =~= here.pending_events.push(
                DiscoveryOutView::Discovered(peer@),
            ));
            assert(discovered(list@).take(i + 1) =~= discovered(list@).take(i as int).push(
                discovered(list@)[i as int],
            ));
            assert(self@.kademlias == here.kademlias);
            i = i + 1;
        }
        assert(discovered(list@).take(i as int) =~= discovered(list@));
        let ghost queue = self@.pending_events;
        if let Some(event) = self.pending_events.pop_front() {
            assert(self@.pending_events =~= queue.drop_first());
            assert(event@ == queue[0]);
            proof {
                if before.wf() {
                    assert forall|j: int| 0 <= j < self@.pending_events.len() implies !((
                    #[trigger] self@.pending_events[j]) is RandomKademliaStarted) by {
                        assert(self@.pending_events[j] == queue[j + 1]);
                        if j + 1 < before.pending_events.len() {
                            assert(queue[j + 1] == before.pending_events[j + 1]);
                        }
                    }
                }
            }
            return DiscoveryStep::Event(event);
        }
        assert(queue.len() == 0);
        assert(self@.pending_events =~= before.pending_events);
        DiscoveryStep::PollMdns
    }
}

/// A call on discovery, as far as its timer goes.
pub enum DiscoveryCall {
    /// Discovery is looked at.
    Poll(Instant),
    /// Any other call.
    Other,
}

/// Whether a call leads from one state to another. Only looking at discovery touches the
/// timer.
pub open spec fn call_leads(
    before: DiscoveryView,
    call: DiscoveryCall,
    after: DiscoveryView,
) -> bool {
    match call {
        DiscoveryCall::Poll(now) => polled_state(before, after, now),
        DiscoveryCall::Other => after.next_kad_random_query == before.next_kad_random_query
            && after.duration_to_next_kad == before.duration_to_next_kad,
    }
}

/// Whether states follow one another by calls.
pub open spec fn is_run(states: Seq<DiscoveryView>, calls: Seq<DiscoveryCall>) -> bool {
    &&& states.len() == calls.len() + 1
    &&& forall|i: int|
        0 <= i < calls.len() ==> call_leads(states[i], #[trigger] calls[i], states[i + 1])
}

/// Whether the timer has run out at a call.
pub open spec fn call_expires(before: DiscoveryView, call: DiscoveryCall) -> bool {
    call matches DiscoveryCall::Poll(now) && expires(before, now)
}

/// How often the timer has run out during a run.
pub open spec fn expiries(states: Seq<DiscoveryView>, calls: Seq<DiscoveryCall>) -> nat
    decreases calls.len(),
{
    if calls.len() == 0 {
        0
    } else {
        expiries(states.drop_last(), calls.drop_last()) + (if call_expires(
            states[calls.len() - 1],
            calls.last(),
        ) {
            1nat
        } else {
            0nat
        })
    }
}

/// Whatever is called from the start of discovery on: once its timer has run out `n` times,
/// the delay is two to the `n`-th seconds, and never more than a minute, whether queries
/// were started or discovery was paused; and where the timer has just run out, it is set to
/// the delay before that.
pub proof fn delays_of_a_run(
    config: DiscoveryConfigView,
    start: Instant,
    states: Seq<DiscoveryView>,
    calls: Seq<DiscoveryCall>,
)
    requires
        is_run(states, calls),
        states[0] == new_discovery(config, start),
    ensures
        states.last().duration_to_next_kad == nth_delay(expiries(states, calls)),
        states.last().duration_to_next_kad.nanos == if pow2(expiries(states, calls)) < 60 {
            pow2(expiries(states, calls)) * 1_000_000_000
        } else {
            60 * 1_000_000_000
        },
        calls.len() > 0 && call_expires(states[calls.len() - 1], calls.last()) ==> (
        calls.last() matches DiscoveryCall::Poll(now) && expiries(states, calls) > 0
            && states.last().next_kad_random_query == later(
            now,
            nth_delay((expiries(states, calls) - 1) as nat),
        )),
    decreases calls.len(),
{
    delays_double(expiries(states, calls));
    if calls.len() > 0 {
        let n = calls.len() - 1;
        let before = states[n];
        let after = states[n + 1];
        let fewer_states = states.drop_last();
        let fewer_calls = calls.drop_last();
        assert forall|i: int| 0 <= i < fewer_calls.len() implies call_leads(
            fewer_states[i],
            #[trigger] fewer_calls[i],
            fewer_states[i + 1],
        ) by {
            assert(fewer_calls[i] == calls[i]);
        }
        delays_of_a_run(config, start, fewer_states, fewer_calls);
        assert(fewer_states.last() == before);
        assert(call_leads(before, calls[n], after));
        assert(states.last() == after);
        if let DiscoveryCall::Poll(now) = calls[n] {
            if expires(before, now) && !paused(before) {
                let peer = choose|peer: Seq<u8>| started(before, after, now, peer);
                assert(started(before, after, now, peer));
            }
        }
    }
}

/// While there are enough connections, looking at discovery starts no query in any table,
/// and leaves no word of one to be told; a timer that has run out is set all the same, and
/// the delay grows.
pub proof fn pausing_starts_no_queries(before: DiscoveryView, after: DiscoveryView, now: Instant)
    requires
        before.wf(),
        paused(before),
        polled_state(before, after, now),
    ensures
        after.kademlias == before.kademlias,
        paused(after),
        forall|i: int|
            0 <= i < after.pending_events.len() ==> !((#[trigger] after.pending_events[i])
                is RandomKademliaStarted),
        after.duration_to_next_kad == if expires(before, now) {
            next_delay(before.duration_to_next_kad)
        } else {
            before.duration_to_next_kad
        },
        expires(before, now) ==> after.next_kad_random_query == later(
            now,
            before.duration_to_next_kad,
        ),
{
    if before.pending_events.len() > 0 {
        assert forall|i: int| 0 <= i < after.pending_events.len() implies !((
        #[trigger] after.pending_events[i]) is RandomKademliaStarted) by {
            assert(after.pending_events[i] == before.pending_events[i + 1]);
        }
    }
}

/// In every state at most 32 external addresses of the node are kept, and none of them
/// twice.
pub proof fn external_addresses_are_limited(view: DiscoveryView)
    requires
        view.wf(),
    ensures
        view.known_external_addresses.list.len() <= 32,
        view.known_external_addresses.list.no_duplicates(),
{
}

/// An address that starts with a private IPv4 address does not enter the tables, but for
/// the two that are taken to be reachable.
pub proof fn private_addresses_stay_out(address: Seq<u8>, octets: Seq<u8>)
    requires
        first_component(address) == Some(ProtocolView::Ip4(octets)),
        is_private_ipv4(octets),
    ensures
        dht_takes(first_component(address)) <==> octets == seq![192u8, 168u8, 0u8, 9u8] || octets
            == seq![192u8, 168u8, 0u8, 10u8],
{
}

/// A table that takes a record keeps it under its key, in the place of an earlier one,
/// and every other record stays; a table that does not take it keeps what it had.
pub proof fn records_that_are_taken_are_kept(kademlia: KademliaView, key: Seq<u8>, value: Seq<u8>)
    ensures
        ({
            let before = kademlia.dht.records;
            let after = with_record(kademlia, key, value).dht.records;
            if takes_record(kademlia.dht, key, value) {
                &&& after.contains_key(key) && after[key] == value
                &&& forall|other: Seq<u8>|
                    other != key ==> after.contains_key(other) == before.contains_key(other) && (
                    before.contains_key(other) ==> after[other] == before[other])
            } else {
                after == before
            }
        }),
{
}

/// The delays between random queries are one second, two, four and so on, and never
/// more than a minute.
pub proof fn delays_double(n: nat)
    ensures
        nth_delay(n).nanos == if pow2(n) < 60 {
            pow2(n) * 1_000_000_000
        } else {
            60 * 1_000_000_000
        },
        n >= 6 ==> nth_delay(n) == secs(60),
    decreases n,
{
    if n == 0 {
        lemma2_to64();
    } else {
        delays_double((n - 1) as nat);
        lemma_pow2_unfold(n);
    }
    if n >= 6 {
        lemma2_to64();
        if n > 6 {
            lemma_pow2_strictly_increases(6, n);
        }
    }
}

/// Adding a chain again changes nothing, and no chain is ever there twice.
pub proof fn adding_a_protocol_twice(config: DiscoveryConfigView, id: Seq<char>)
    requires
        config.wf(),
    ensures
        config.with_protocol(id).wf(),
        config.with_protocol(id).protocol_ids.contains(id),
        config.with_protocol(id).with_protocol(id) == config.with_protocol(id),
{
    let after = config.with_protocol(id).protocol_ids;
    if !config.protocol_ids.contains(id) {
        assert(after.last() == id);
        assert(after[after.len() - 1] == id);
    }
}

/// Looking at discovery: what waits to be told comes first, and changes nothing else. Else,
/// while the timer has not run out, nothing changes. Once it has, it is set to the present
/// delay, which then doubles up to 60 seconds; and a query is started in every table where
/// there are fewer connections than the limit, and in none where there are as many, or more.
pub proof fn discovery_runs_under_its_limit(
    before: DiscoveryView,
    after: DiscoveryView,
    now: Instant,
)
    requires
        polled_state(before, after, now),
        before.duration_to_next_kad.nanos <= 60_000_000_000,
    ensures
        before.pending_events.len() > 0 ==> after.pending_events == before.pending_events.skip(1)
            && after.kademlias == before.kademlias && after.next_kad_random_query
            == before.next_kad_random_query && after.duration_to_next_kad
            == before.duration_to_next_kad,
        before.pending_events.len() == 0 ==> after.pending_events.len() == 0,
        before.pending_events.len() == 0 && now.nanos < before.next_kad_random_query.nanos
            ==> after == before,
        before.pending_events.len() == 0 && now.nanos >= before.next_kad_random_query.nanos ==> {
            &&& now.nanos + before.duration_to_next_kad.nanos <= u128::MAX
                ==> after.next_kad_random_query.nanos == now.nanos
                + before.duration_to_next_kad.nanos
            &&& after.duration_to_next_kad.nanos == if before.duration_to_next_kad.nanos
                <= 30_000_000_000 {
                2 * before.duration_to_next_kad.nanos
            } else {
                60_000_000_000
            }
        },
        before.num_connections >= before.discovery_only_if_under_num ==> after.kademlias
            == before.kademlias,
        before.num_connections < before.discovery_only_if_under_num
            && before.pending_events.len() == 0 && now.nanos >= before.next_kad_random_query.nanos
            ==> exists|peer: Seq<u8>|
            is_peer_id(peer) && #[trigger] queried_everywhere(
                before.kademlias,
                after.kademlias,
                peer,
            ),
        after.num_connections == before.num_connections,
        after.discovery_only_if_under_num == before.discovery_only_if_under_num,
        after.known_external_addresses == before.known_external_addresses,
{
    if before.pending_events.len() > 0 {
        assert(before.pending_events.drop_first() =~= before.pending_events.skip(1));
    } else if expires(before, now) && !paused(before) {
        let peer = choose|peer: Seq<u8>| started(before, after, now, peer);
        assert(started(before, after, now, peer));
        assert(queried_everywhere(before.kademlias, after.kademlias, peer));
    }
}

/// A search puts one query for the peer into every table, and changes nothing else.
pub proof fn searches_go_to_every_table(view: DiscoveryView, peer: Seq<u8>)
    ensures
        queried_everywhere(view.kademlias, searching(view, peer).kademlias, peer),
        searching(view, peer).pending_events == view.pending_events,
        searching(view, peer).next_kad_random_query == view.next_kad_random_query,
        searching(view, peer).duration_to_next_kad == view.duration_to_next_kad,
        searching(view, peer).num_connections == view.num_connections,
{
}

/// The tables are looked at one after the other, from the first on, then the local network
/// where peers are looked for there, and then there is nothing left to do.
pub proof fn tables_are_taken_in_turn<P>(step: DiscoveryStep<P>, view: DiscoveryView, index: int)
    requires
        goes_on(step, view, index),
        0 <= index,
    ensures
        index < view.kademlias.len() <==> step is PollKademlia,
        step matches DiscoveryStep::PollKademlia(i) ==> i == index,
        index >= view.kademlias.len() && view.mdns <==> step is PollMdns,
        index >= view.kademlias.len() && !view.mdns <==> step is Pending,
{
}

/// The node is told of a peer that entered or may enter a table, of one without an address,
/// and of how a query for a record and the spreading of a record ended, with the time that
/// it took, if that is known. Of nothing else that a table reports it is told.
pub proof fn reports_are_told_as_they_come(
    peer: PeerId,
    records: Vec<(Vec<u8>, Vec<u8>)>,
    key: Vec<u8>,
    time: Duration,
    i: int,
)
    ensures
        told(KademliaEvent::RoutingUpdated { peer }) == Some(DiscoveryOutView::Discovered(peer@)),
        told(KademliaEvent::RoutablePeer { peer }) == Some(DiscoveryOutView::Discovered(peer@)),
        told(KademliaEvent::UnroutablePeer { peer }) == Some(
            DiscoveryOutView::UnroutablePeer(peer@),
        ),
        told(KademliaEvent::GetRecord { result: Ok(records), duration: Some(time) }) matches Some(
            DiscoveryOutView::ValueFound(list, t),
        ) && t == time && list.len() == records@.len() && (0 <= i < list.len() ==> list[i].0
            == records@[i].0@ && list[i].1 == records@[i].1@),
        told(KademliaEvent::GetRecord { result: Ok(records), duration: None }) matches Some(
            DiscoveryOutView::ValueFound(_, t),
        ) && t.nanos == 0,
        told(KademliaEvent::GetRecord { result: Err(key), duration: Some(time) }) == Some(
            DiscoveryOutView::ValueNotFound(key@, time),
        ),
        told(KademliaEvent::GetRecord { result: Err(key), duration: None }) == Some(
            DiscoveryOutView::ValueNotFound(key@, Duration { nanos: 0 }),
        ),
        told(KademliaEvent::PutRecord { result: Ok(key), duration: Some(time) }) == Some(
            DiscoveryOutView::ValuePut(key@, time),
        ),
        told(KademliaEvent::PutRecord { result: Ok(key), duration: None }) == Some(
            DiscoveryOutView::ValuePut(key@, Duration { nanos: 0 }),
        ),
        told(KademliaEvent::PutRecord { result: Err(key), duration: Some(time) }) == Some(
            DiscoveryOutView::ValuePutFailed(key@, time),
        ),
        told(KademliaEvent::PutRecord { result: Err(key), duration: None }) == Some(
            DiscoveryOutView::ValuePutFailed(key@, Duration { nanos: 0 }),
        ),
        told(KademliaEvent::PendingRoutablePeer { peer }) is None,
        told(KademliaEvent::GetClosestPeers) is None,
        told(KademliaEvent::RepublishRecord) is None,
        told(KademliaEvent::Other) is None,
{
}

/// The peers found on the local network are told in the order in which they were found.
pub proof fn local_peers_are_told_in_order(list: Seq<(PeerId, Multiaddr)>, i: int)
    ensures
        discovered(list).len() == list.len(),
        0 <= i < list.len() ==> discovered(list)[i] == DiscoveryOutView::Discovered(list[i].0@),
{
}

/// Discovery starts with a table for each chain, in the order of the chains, that is named
/// after its chain and holds nothing; without connections and without anything to tell; with
/// the first random query due at once and a delay of one second after it; and with the
/// settings that it was configured to.
pub proof fn discovery_starts_as_configured(
    config: DiscoveryConfigView,
    start: Instant,
    i: int,
)
    ensures
        ({
            let view = new_discovery(config, start);
            &&& view.kademlias.len() == config.protocol_ids.len()
            &&& 0 <= i < view.kademlias.len() ==> {
                let table = view.kademlias[i];
                &&& table.id == config.protocol_ids[i]
                &&& table.dht.config.protocol == kademlia_name(config.protocol_ids[i])
                &&& table.dht.config.inserts is Manual
                &&& table.dht.config.disjoint == config.kademlia_disjoint_query_paths
                &&& table.dht.local == config.local_peer_id
                &&& table.dht.records.dom() == Set::<Seq<u8>>::empty()
                &&& table.dht.queries.len() == 0
                &&& table.dht.max_records == 1024
                &&& table.dht.max_value_bytes == 66560
            }
            &&& view.next_kad_random_query == start
            &&& view.duration_to_next_kad.nanos == 1_000_000_000
            &&& view.pending_events.len() == 0
            &&& view.num_connections == 0
            &&& view.local_peer_id == config.local_peer_id
            &&& view.allow_private_ipv4 == config.allow_private_ipv4
            &&& view.allow_non_globals_in_dht == config.allow_non_globals_in_dht
            &&& view.discovery_only_if_under_num == config.discovery_only_if_under_num
            &&& view.mdns == config.enable_mdns
            &&& view.known_external_addresses.list.len() == 0
            &&& view.known_external_addresses.limit == 32
        }),
{
}

/// A configuration starts without chains, with private addresses handed out but kept from
/// the tables, without a limit that is ever reached, and without the local network.
pub proof fn configurations_start_open(id: Seq<u8>)
    ensures
        ({
            let config = default_discovery(id);
            &&& config.local_peer_id == id
            &&& config.protocol_ids.len() == 0
            &&& config.allow_private_ipv4
            &&& !config.allow_non_globals_in_dht
            &&& !config.enable_mdns
            &&& !config.kademlia_disjoint_query_paths
            &&& config.discovery_only_if_under_num == 0xffff_ffff_ffff_ffff
        }),
{
}

/// A chain that is added comes last, those before it stay, and one that is there is not
/// added again; nothing else changes.
pub proof fn chains_are_added_at_the_end(config: DiscoveryConfigView, id: Seq<char>)
    ensures
        ({
            let after = config.with_protocol(id);
            &&& after.protocol_ids.contains(id)
            &&& config.protocol_ids.contains(id) ==> after == config
            &&& !config.protocol_ids.contains(id) ==> after.protocol_ids.last() == id
                && after.protocol_ids.drop_last() == config.protocol_ids
            &&& after.local_peer_id == config.local_peer_id
            &&& after.allow_private_ipv4 == config.allow_private_ipv4
            &&& after.allow_non_globals_in_dht == config.allow_non_globals_in_dht
            &&& after.discovery_only_if_under_num == config.discovery_only_if_under_num
            &&& after.enable_mdns == config.enable_mdns
            &&& after.kademlia_disjoint_query_paths == config.kademlia_disjoint_query_paths
        }),
{
    let after = config.with_protocol(id).protocol_ids;
    if !config.protocol_ids.contains(id) {
        assert(after[after.len() - 1] == id);
        assert(after.drop_last() =~= config.protocol_ids);
    }
}

/// The name of a table's protocol is a slash, the text of the chain, and `/kad`.
pub proof fn table_names_hold_their_chain(id: Seq<char>)
    ensures
        ({
            let name = kademlia_name(id);
            let text = encode_utf8(id);
            &&& name.len() == text.len() + 5
            &&& name[0] == 47
            &&& name.subrange(1, 1 + text.len() as int) == text
            &&& name.skip(1 + text.len() as int) == seq![47u8, 107u8, 97u8, 100u8]
        }),
{
    reveal_strlit("/");
    reveal_strlit("/kad");
    let name = kademlia_name(id);
    let text = encode_utf8(id);
    assert(name.subrange(1, 1 + text.len() as int) =~= text);
    assert(name.skip(1 + text.len() as int) =~= seq![47u8, 107u8, 97u8, 100u8]);
}

/// The size of records grows with a new one by the size of its value, whatever the others
/// are, and no records have no size.
pub proof fn sizes_add_up(records: Map<Seq<u8>, Seq<u8>>, key: Seq<u8>, value: Seq<u8>)
    requires
        records.dom().finite(),
    ensures
        records.dom().is_empty() ==> total_size(records) == 0,
        !records.contains_key(key) ==> total_size(records.insert(key, value)) == total_size(records)
            + value.len(),
        records.contains_key(key) ==> total_size(records.insert(key, value)) + records[key].len()
            == total_size(records) + value.len(),
{
    let after = records.insert(key, value);
    lemma_total_size_remove(after, key);
    if records.contains_key(key) {
        lemma_total_size_remove(records, key);
        assert(after.remove(key) =~= records.remove(key));
    } else {
        assert(after.remove(key) =~= records);
    }
}

/// A record is put exactly where its value is shorter than the limit, and there is room or a
/// record under its key already; then it is kept and spread to all. Else nothing happens.
pub proof fn records_are_put_where_there_is_room(
    kademlia: KademliaView,
    key: Seq<u8>,
    value: Seq<u8>,
)
    ensures
        ({
            let before = kademlia.dht;
            let after = with_record(kademlia, key, value).dht;
            if value.len() < before.max_value_bytes && (before.records.contains_key(key)
                || before.records.len() < before.max_records) {
                &&& after.records == before.records.insert(key, value)
                &&& after.queries == before.queries.insert(
                    QueryView::PutRecord { key, value, quorum: Quorum::All },
                )
                &&& after.config == before.config
            } else {
                after == before
            }
        }),
        with_record(kademlia, key, value).id == kademlia.id,
{
}

/// Asking a table for a record starts one query for it, and touches no other record.
pub proof fn lookups_touch_no_other_record(
    before: KademliaView,
    after: KademliaView,
    key: Seq<u8>,
    other: Seq<u8>,
)
    requires
        asked_record(before, after, key),
    ensures
        after.id == before.id,
        after.dht.queries == before.dht.queries.insert(
            QueryView::GetRecord { key, quorum: Quorum::One },
        ),
        other != key ==> (after.dht.records.contains_key(other)
            <==> before.dht.records.contains_key(other)),
        other != key && before.dht.records.contains_key(other) ==> after.dht.records[other]
            == before.dht.records[other],
        after.dht.records.contains_key(key) ==> before.dht.records.contains_key(key)
            && after.dht.records[key] == before.dht.records[key],
        after.dht.config == before.dht.config,
{
}

/// With one more table there is one more refusal exactly where that table has no room for
/// the record, or the record is too large for it.
pub proof fn each_table_refuses_for_itself(
    kademlias: Seq<KademliaView>,
    table: KademliaView,
    key: Seq<u8>,
    value: Seq<u8>,
)
    ensures
        refusals(Seq::empty(), key, value) == 0,
        refusals(kademlias.push(table), key, value) == refusals(kademlias, key, value) + (
        if value.len() >= table.dht.max_value_bytes || (!table.dht.records.contains_key(key)
            && table.dht.records.len() >= table.dht.max_records) {
            1int
        } else {
            0int
        }),
        refusals(kademlias, key, value) <= kademlias.len(),
    decreases kademlias.len(),
{
    assert(kademlias.push(table).drop_last() =~= kademlias);
    if kademlias.len() > 0 {
        each_table_refuses_for_itself(kademlias.drop_last(), table, key, value);
    }
}

/// Only the first component of an address decides whether it may enter the tables: a name
/// always may, an IPv4 address unless it is in a range that is set aside, and anything else
/// but an IPv6 address never.
pub proof fn the_first_component_decides(address: Seq<u8>, octets: Seq<u8>)
    ensures
        address.len() == 0 ==> !dht_takes(first_component(address)),
        dht_takes(Some(ProtocolView::Dns)),
        dht_takes(Some(ProtocolView::Dns4)),
        dht_takes(Some(ProtocolView::Dns6)),
        !dht_takes(Some(ProtocolView::Other)),
        !dht_takes(None),
        dht_takes(Some(ProtocolView::Ip4(octets))) <==> is_global_ipv4(octets),
        dht_takes(Some(ProtocolView::Ip6(octets))) <==> is_global_ipv6(octets),
{
}

/// The protocols that a peer shares with the node are those that it supports and that are
/// the name of a table, as often and in the order in which it says so.
pub proof fn shared_protocols_are_supported(
    supported: Seq<Seq<u8>>,
    kademlias: Seq<KademliaView>,
    name: Seq<u8>,
    i: int,
)
    ensures
        shared_protocols(Seq::empty(), kademlias).len() == 0,
        0 <= i < kademlias.len() && kademlias[i].dht.config.protocol == name ==> shared_protocols(
            supported.push(name),
            kademlias,
        ) == shared_protocols(supported, kademlias).push(name),
        (forall|j: int|
            0 <= j < kademlias.len() ==> (#[trigger] kademlias[j]).dht.config.protocol != name)
            ==> shared_protocols(supported.push(name), kademlias) == shared_protocols(
            supported,
            kademlias,
        ),
{
    reveal(Seq::filter);
    assert(supported.push(name).drop_last() =~= supported);
    assert(supported.push(name).last() == name);
    if 0 <= i < kademlias.len() && kademlias[i].dht.config.protocol == name {
        assert(has_name(kademlias, name));
    }
}

/// Where private addresses are handed out, all are. Else an address is left out exactly where
/// it starts with an IPv4 address of 10.0.0.0/8, 172.16.0.0/12 or 192.168.0.0/16; the others
/// stay, as often and in the order in which they came.
pub proof fn only_private_addresses_are_held_back(list: Seq<Seq<u8>>, address: Seq<u8>)
    ensures
        handed_out(true, list) == list,
        handed_out(false, Seq::empty()).len() == 0,
        first_component(address) matches Some(ProtocolView::Ip4(octets)) && octets.len() == 4 && (
        octets[0] == 10 || (octets[0] == 172 && 16 <= octets[1] < 32) || (octets[0] == 192
            && octets[1] == 168)) ==> handed_out(false, list.push(address)) == handed_out(
            false,
            list,
        ),
        first_component(address) matches Some(ProtocolView::Ip4(octets)) ==> octets[0] != 10 && !(
        octets[0] == 172 && 16 <= octets[1] < 32) && !(octets[0] == 192 && octets[1] == 168)
            ==> handed_out(false, list.push(address)) == handed_out(false, list).push(address),
        !(first_component(address) matches Some(ProtocolView::Ip4(_))) ==> handed_out(
            false,
            list.push(address),
        ) == handed_out(false, list).push(address),
{
    reveal(Seq::filter);
    assert(list.push(address).drop_last() =~= list);
    assert(list.push(address).last() == address);
}

/// Of each bucket that holds a peer the distance and the number of peers are reported, in
/// order; a distance without a logarithm counts as zero.
pub proof fn buckets_are_reported_one_by_one(buckets: Seq<(Option<u32>, usize)>, i: int)
    ensures
        entry_list(buckets).len() == buckets.len(),
        0 <= i < buckets.len() ==> entry_list(buckets)[i].1 == buckets[i].1,
        0 <= i < buckets.len() && buckets[i].0 is Some ==> entry_list(buckets)[i].0
            == buckets[i].0->0,
        0 <= i < buckets.len() && buckets[i].0 is None ==> entry_list(buckets)[i].0 == 0,
{
}

/// Another state of one table leaves all other tables, and all else, as they were.
pub proof fn other_tables_stay(view: DiscoveryView, index: int, dht: DhtView, i: int)
    requires
        0 <= index < view.kademlias.len(),
        0 <= i < view.kademlias.len(),
    ensures
        ({
            let after = with_table(view, index, dht);
            &&& after.kademlias.len() == view.kademlias.len()
            &&& after.kademlias[index].dht == dht
            &&& after.kademlias[i].id == view.kademlias[i].id
            &&& i != index ==> after.kademlias[i] == view.kademlias[i]
            &&& after.pending_events == view.pending_events
            &&& after.next_kad_random_query == view.next_kad_random_query
            &&& after.duration_to_next_kad == view.duration_to_next_kad
            &&& after.num_connections == view.num_connections
        }),
{
}

/// Something stands in lists put one behind the other exactly where it stands in one of them.
proof fn lemma_flat_contains(lists: Seq<Seq<Seq<u8>>>, item: Seq<u8>)
    ensures
        lists.flatten().contains(item) <==> exists|i: int|
            0 <= i < lists.len() && (#[trigger] lists[i]).contains(item),
    decreases lists.len(),
{
    if lists.len() > 0 {
        let (first, rest) = (lists.first(), lists.drop_first());
        let all = lists.flatten();
        lemma_flat_contains(rest, item);
        if first.contains(item) {
            let k = first.index_of(item);
            assert(all[k] == item);
            assert(lists[0].contains(item));
        }
        if rest.flatten().contains(item) {
            let k = rest.flatten().index_of(item);
            assert(all[first.len() + k] == item);
            let i = choose|i: int| 0 <= i < rest.len() && (#[trigger] rest[i]).contains(item);
            assert(lists[i + 1].contains(item));
        }
        if all.contains(item) {
            let k = all.index_of(item);
            if k < first.len() {
                assert(first[k] == item);
            } else {
                assert(rest.flatten()[k - first.len()] == item);
            }
        }
        if exists|i: int| 0 <= i < lists.len() && (#[trigger] lists[i]).contains(item) {
            let i = choose|i: int| 0 <= i < lists.len() && (#[trigger] lists[i]).contains(item);
            if i > 0 {
                assert(rest[i - 1].contains(item));
            }
        }
    }
}

/// Without private addresses, an address is handed out of a list exactly where it stands in
/// it and is not private.
proof fn lemma_handed_out_contains(list: Seq<Seq<u8>>, address: Seq<u8>)
    ensures
        handed_out(false, list).contains(address) <==> list.contains(address) && !starts_private(
            address,
        ),
    decreases list.len(),
{
    reveal(Seq::filter);
    if list.len() > 0 {
        let (front, last) = (list.drop_last(), list.last());
        lemma_handed_out_contains(front, address);
        let kept = handed_out(false, list);
        let before = handed_out(false, front);
        assert(list =~= front.push(last));
        assert(list.contains(address) <==> front.contains(address) || last == address) by {
            if front.contains(address) {
                assert(list[front.index_of(address)] == address);
            }
            assert(list[list.len() - 1] == last);
            if list.contains(address) {
                let k = list.index_of(address);
                if k < front.len() {
                    assert(front[k] == address);
                }
            }
        }
        if starts_private(last) {
            assert(kept == before);
        } else {
            assert(kept == before.push(last));
            assert(kept.contains(address) <==> before.contains(address) || last == address) by {
                if before.contains(address) {
                    assert(kept[before.index_of(address)] == address);
                }
                assert(kept[kept.len() - 1] == last);
                if kept.contains(address) {
                    let k = kept.index_of(address);
                    if k < before.len() {
                        assert(before[k] == address);
                    }
                }
            }
        }
    }
}

/// An address is handed out for a peer exactly where a table holds it for that peer, and
/// private addresses may be handed out or it is none. With a single table and no address
/// held back, what is handed out is what the table holds, those of its routing table first.
pub proof fn known_addresses_are_handed_out(
    discovery: DiscoveryBehaviour,
    peer: Seq<u8>,
    addresses: Seq<Seq<u8>>,
    address: Seq<u8>,
)
    requires
        hands_out(discovery, peer, addresses),
    ensures
        addresses.contains(address) <==> (discovery@.allow_private_ipv4 || !starts_private(address))
            && exists|i: int|
            0 <= i < discovery@.kademlias.len() && (#[trigger] discovery.table_addresses(
                i,
                peer,
            )).count(address) > 0,
        discovery@.kademlias.len() == 1 && discovery@.allow_private_ipv4
            ==> addresses.to_multiset() == discovery.table_addresses(0, peer)
            && discovery.routed_addresses(0, peer).is_prefix_of(addresses),
        discovery@.kademlias.len() == 0 ==> addresses.len() == 0,
{
    let known = choose|known: Seq<Seq<Seq<u8>>>| #[trigger]
        lists_addresses(discovery, peer, known) && addresses == handed_out(
            discovery@.allow_private_ipv4,
            known.flatten(),
        );
    lemma_flat_contains(known, address);
    assert forall|i: int| 0 <= i < known.len() implies (discovery.table_addresses(i, peer).count(
        address,
    ) > 0 <==> (#[trigger] known[i]).contains(address)) by {
        broadcast use vstd::seq_lib::group_to_multiset_ensures;

        assert(known[i].contains(address) <==> known[i].to_multiset().count(address) > 0);
    }
    if exists|i: int| 0 <= i < known.len() && (#[trigger] known[i]).contains(address) {
        let i = choose|i: int| 0 <= i < known.len() && (#[trigger] known[i]).contains(address);
        assert(discovery.table_addresses(i, peer).count(address) > 0);
    }
    if exists|i: int|
        0 <= i < known.len() && (#[trigger] discovery.table_addresses(i, peer)).count(address) > 0 {
        let i = choose|i: int|
            0 <= i < known.len() && (#[trigger] discovery.table_addresses(i, peer)).count(address)
                > 0;
        assert(known[i].contains(address));
    }
    if !discovery@.allow_private_ipv4 {
        lemma_handed_out_contains(known.flatten(), address);
    }
    if known.len() == 1 {
        known.lemma_flatten_one_element();
        assert(known.first() == known[0]);
    }
    if known.len() == 0 {
        assert(known.flatten().len() == 0);
        if !discovery@.allow_private_ipv4 {
            reveal(Seq::filter);
        }
    }
}

/// What the node is told is what the message says.
pub proof fn messages_say_what_they_hold(
    peer: PeerId,
    key: Vec<u8>,
    records: Vec<(Vec<u8>, Vec<u8>)>,
    ids: Vec<ProtocolId>,
    time: Duration,
    i: int,
)
    ensures
        DiscoveryOut::Discovered(peer)@ == DiscoveryOutView::Discovered(peer@),
        DiscoveryOut::UnroutablePeer(peer)@ == DiscoveryOutView::UnroutablePeer(peer@),
        DiscoveryOut::ValueNotFound(key, time)@ == DiscoveryOutView::ValueNotFound(key@, time),
        DiscoveryOut::ValuePut(key, time)@ == DiscoveryOutView::ValuePut(key@, time),
        DiscoveryOut::ValuePutFailed(key, time)@ == DiscoveryOutView::ValuePutFailed(key@, time),
        DiscoveryOut::ValueFound(records, time)@ matches DiscoveryOutView::ValueFound(list, t) && t
            == time && list.len() == records@.len() && (0 <= i < list.len() ==> list[i].0
            == records@[i].0@ && list[i].1 == records@[i].1@),
        DiscoveryOut::RandomKademliaStarted(
            ids,
        )@ matches DiscoveryOutView::RandomKademliaStarted(list) && list.len() == ids@.len() && (0
            <= i < list.len() ==> list[i] == ids@[i]@),
{
}

} // verus!
