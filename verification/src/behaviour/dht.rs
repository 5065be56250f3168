//! The Kademlia tables of `libp2p`: what the calls that the node makes do to one.
use crate::octets::{ascii, views};
use crate::peer::{is_address, is_peer_id};
use vstd::multiset::Multiset;
use vstd::prelude::*;

verus! {

/// A Kademlia table that keeps its records in memory.
pub type Dht = libp2p::kad::Kademlia<libp2p::kad::record::store::MemoryStore>;

/// The Kademlia table of `libp2p`, carried as it comes.
#[verifier::external_type_specification]
#[verifier::external_body]
#[verifier::reject_recursive_types(TStore)]
pub struct ExKademlia<TStore>(libp2p::kad::Kademlia<TStore>);

/// The store of records in memory of `libp2p`, carried as it comes.
#[verifier::external_type_specification]
#[verifier::external_body]
pub struct ExMemoryStore(libp2p::kad::record::store::MemoryStore);

/// The configuration of a Kademlia table of `libp2p`, carried as it comes.
#[verifier::external_type_specification]
#[verifier::external_body]
pub struct ExKademliaConfig(libp2p::kad::KademliaConfig);

/// The error of a store of records, carried as it comes.
#[verifier::external_type_specification]
#[verifier::external_body]
pub struct ExStoreError(libp2p::kad::record::store::Error);

/// How many peers have to answer for a query to succeed.
#[derive(Debug, Clone, Copy, PartialEq, Eq, Structural)]
pub enum Quorum {
    One,
    All,
}

/// When peers enter the routing table.
#[derive(Debug, Clone, Copy, PartialEq, Eq, Structural)]
pub enum BucketInserts {
    /// As soon as they are connected.
    OnConnected,
    /// When the node says so.
    Manual,
}

/// A query that a table was given and is not done with.
pub enum QueryView {
    /// Looks for the record under a key.
    GetRecord { key: Seq<u8>, quorum: Quorum },
    /// Spreads a record.
    PutRecord { key: Seq<u8>, value: Seq<u8>, quorum: Quorum },
    /// Looks for the peers that are closest to one.
    ClosestPeers { peer: Seq<u8> },
}

/// What a table is configured to.
pub struct DhtConfigView {
    /// The name of the protocol.
    pub protocol: Seq<u8>,
    /// When peers enter the routing table.
    pub inserts: BucketInserts,
    /// Whether a query takes paths that share no peer.
    pub disjoint: bool,
}

/// The state of a table, but for its routing table.
pub struct DhtView {
    /// The identity of the node.
    pub local: Seq<u8>,
    pub config: DhtConfigView,
    /// The records that are kept, each under its key.
    pub records: Map<Seq<u8>, Seq<u8>>,
    /// How many records may be kept.
    pub max_records: nat,
    /// How many bytes the value of a record must stay under.
    pub max_value_bytes: nat,
    /// The queries that were given to it and that it is not done with.
    pub queries: Multiset<QueryView>,
}

/// What a `libp2p::kad::KademliaConfig` says.
pub uninterp spec fn config_view(config: libp2p::kad::KademliaConfig) -> DhtConfigView;

/// What a `libp2p::kad::Kademlia` holds.
pub uninterp spec fn dht_view(dht: Dht) -> DhtView;

/// The addresses that a `libp2p::kad::Kademlia` holds for a peer: those of the peer in
/// the routing table, where the peer is in it and not only about to enter it, and those
/// that its queries have come across. The queries are walked in no particular order.
pub uninterp spec fn dht_addresses(dht: Dht, peer: Seq<u8>) -> Multiset<Seq<u8>>;

/// The addresses that a `libp2p::kad::Kademlia` holds for a peer in its routing table, in
/// the order in which they are kept there.
pub uninterp spec fn dht_routed(dht: Dht, peer: Seq<u8>) -> Seq<Seq<u8>>;

/// The buckets of the routing table of a `libp2p::kad::Kademlia` that hold a peer, those of
/// the closest peers first: of each the logarithm of the distance that it starts at, where
/// that is not zero, and how many peers are in it. Peers that are only about to enter the
/// table do not count.
pub uninterp spec fn dht_buckets(dht: Dht) -> Seq<(Option<u32>, usize)>;

/// Whether a table takes a record.
pub open spec fn takes_record(dht: DhtView, key: Seq<u8>, value: Seq<u8>) -> bool {
    &&& value.len() < dht.max_value_bytes
    &&& dht.records.contains_key(key) || dht.records.len() < dht.max_records
}

/// Whether a list holds the values of some records, in the order in which their keys are
/// given.
pub open spec fn in_order(
    list: Seq<Seq<u8>>,
    keys: Seq<Seq<u8>>,
    records: Map<Seq<u8>, Seq<u8>>,
) -> bool {
    &&& keys.no_duplicates()
    &&& keys.to_set() == records.dom()
    &&& list.len() == keys.len()
    &&& forall|i: int| 0 <= i < list.len() ==> #[trigger] list[i] == records[keys[i]]
}

/// Whether a list holds the values of some records, one for each record.
pub open spec fn lists_values(list: Seq<Seq<u8>>, records: Map<Seq<u8>, Seq<u8>>) -> bool {
    exists|keys: Seq<Seq<u8>>| in_order(list, keys, records)
}

/// `libp2p::kad::KademliaConfig::default`.
#[verifier::external_body]
pub(crate) fn default_config() -> (config: libp2p::kad::KademliaConfig)
    ensures
        config_view(config) == (DhtConfigView {
            protocol: ascii("/ipfs/kad/1.0.0"@),
            inserts: BucketInserts::OnConnected,
            disjoint: false,
        }),
{
    libp2p::kad::KademliaConfig::default()
}

/// `libp2p::kad::KademliaConfig::set_protocol_name`: changes the name, and nothing
/// else.
#[verifier::external_body]
pub(crate) fn set_protocol_name(config: &mut libp2p::kad::KademliaConfig, name: Vec<u8>)
    ensures
        config_view(*final(config)) == (DhtConfigView {
            protocol: name@,
            ..config_view(*old(config))
        }),
{
    config.set_protocol_name(name);
}

/// `libp2p::kad::KademliaConfig::set_kbucket_inserts`: changes when peers enter the
/// routing table, and nothing else.
#[verifier::external_body]
pub(crate) fn set_kbucket_inserts(
    config: &mut libp2p::kad::KademliaConfig,
    inserts: BucketInserts,
)
    ensures
        config_view(*final(config)) == (DhtConfigView { inserts, ..config_view(*old(config)) }),
{
    config.set_kbucket_inserts(match inserts {
        BucketInserts::OnConnected => libp2p::kad::KademliaBucketInserts::OnConnected,
        BucketInserts::Manual => libp2p::kad::KademliaBucketInserts::Manual,
    });
}

/// `libp2p::kad::KademliaConfig::disjoint_query_paths`: changes whether queries take
/// disjoint paths, and nothing else.
#[verifier::external_body]
pub(crate) fn disjoint_query_paths(config: &mut libp2p::kad::KademliaConfig, enabled: bool)
    ensures
        config_view(*final(config)) == (DhtConfigView {
            disjoint: enabled,
            ..config_view(*old(config))
        }),
{
    config.disjoint_query_paths(enabled);
}

/// `libp2p::kad::Kademlia::with_config` on a store made by `MemoryStore::new`: the
/// table keeps no record and runs no query, and its store has the default limits.
#[verifier::external_body]
pub(crate) fn with_config(local: &[u8], config: libp2p::kad::KademliaConfig) -> (dht: Dht)
    requires
        is_peer_id(local@),
    ensures
        dht_view(dht) == (DhtView {
            local: local@,
            config: config_view(config),
            records: Map::empty(),
            max_records: 1024,
            max_value_bytes: 65 * 1024,
            queries: Multiset::empty(),
        }),
{
    let id = libp2p::PeerId::from_bytes(local).unwrap();
    let store = libp2p::kad::record::store::MemoryStore::new(id);
    libp2p::kad::Kademlia::with_config(id, store, config)
}

/// `libp2p::kad::Kademlia::protocol_name`: the name that the table is configured to.
#[verifier::external_body]
pub(crate) fn protocol_name(dht: &Dht) -> (name: Vec<u8>)
    ensures
        name@ == dht_view(*dht).config.protocol,
{
    dht.protocol_name().to_vec()
}

/// `libp2p::kad::Kademlia::get_record`: starts a query. A record under the key that
/// is kept beyond its time is dropped.
#[verifier::external_body]
pub(crate) fn get_record(dht: &mut Dht, key: &[u8], quorum: Quorum)
    ensures
        dht_view(*final(dht)) == (DhtView {
            queries: dht_view(*old(dht)).queries.insert(QueryView::GetRecord { key: key@, quorum }),
            records: dht_view(*final(dht)).records,
            ..dht_view(*old(dht))
        }),
        dht_view(*final(dht)).records == dht_view(*old(dht)).records || dht_view(
            *final(dht),
        ).records == dht_view(*old(dht)).records.remove(key@),
{
    let quorum = match quorum {
        Quorum::One => libp2p::kad::Quorum::One,
        Quorum::All => libp2p::kad::Quorum::All,
    };
    dht.get_record(&libp2p::kad::record::Key::new(&key), quorum);
}

/// `libp2p::kad::Kademlia::put_record`: keeps a record, in the place of an earlier
/// one under its key, and starts a query. It fails, and nothing happens, where the
/// store does not take the record.
#[verifier::external_body]
pub(crate) fn put_record(dht: &mut Dht, key: &[u8], value: &[u8], quorum: Quorum) -> (r: Result<
    (),
    libp2p::kad::record::store::Error,
>)
    ensures
        r is Ok <==> takes_record(dht_view(*old(dht)), key@, value@),
        r is Ok ==> dht_view(*final(dht)) == (DhtView {
            records: dht_view(*old(dht)).records.insert(key@, value@),
            queries: dht_view(*old(dht)).queries.insert(
                QueryView::PutRecord { key: key@, value: value@, quorum },
            ),
            ..dht_view(*old(dht))
        }),
        r is Err ==> dht_view(*final(dht)) == dht_view(*old(dht)),
{
    let quorum = match quorum {
        Quorum::One => libp2p::kad::Quorum::One,
        Quorum::All => libp2p::kad::Quorum::All,
    };
    let key = libp2p::kad::record::Key::new(&key);
    dht.put_record(libp2p::kad::Record::new(key, value.to_vec()), quorum)?;
    Ok(())
}

/// `libp2p::kad::Kademlia::get_closest_peers`: starts a query.
#[verifier::external_body]
pub(crate) fn get_closest_peers(dht: &mut Dht, peer: &[u8])
    requires
        is_peer_id(peer@),
    ensures
        dht_view(*final(dht)) == (DhtView {
            queries: dht_view(*old(dht)).queries.insert(
                QueryView::ClosestPeers { peer: peer@ },
            ),
            ..dht_view(*old(dht))
        }),
{
    dht.get_closest_peers(libp2p::PeerId::from_bytes(peer).unwrap());
}

/// The values of the records of `libp2p::kad::Kademlia::store_mut`: one for each record, in
/// no particular order.
#[verifier::external_body]
pub(crate) fn stored_values(dht: &mut Dht) -> (list: Vec<Vec<u8>>)
    ensures
        dht_view(*final(dht)) == dht_view(*old(dht)),
        lists_values(views(list@), dht_view(*old(dht)).records),
{
    let records = libp2p::kad::record::store::RecordStore::records(dht.store_mut());
    records.map(|r| r.value.clone()).collect()
}

/// `libp2p::kad::Kademlia::kbuckets`: of each bucket of the routing table that is not empty
/// once the call is over, the logarithm of the distance that it starts at, and how many
/// peers are in it. A peer whose time to enter the routing table has come enters it during
/// the call.
#[verifier::external_body]
pub(crate) fn kbuckets(dht: &mut Dht) -> (list: Vec<(Option<u32>, usize)>)
    ensures
        dht_view(*final(dht)) == dht_view(*old(dht)),
        list@ == dht_buckets(*final(dht)),
{
    dht.kbuckets().map(|bucket| (bucket.range().0.ilog2(), bucket.iter().count())).collect()
}

/// `addresses_of_peer` of `libp2p::kad::Kademlia` as a `NetworkBehaviour`: the addresses
/// that the table holds for a peer once the call is over, those of the routing table first
/// and in order, then those of the queries, which are walked in no particular order. A peer
/// whose time to enter the routing table has come enters it during the call, so which
/// addresses the table held before the call does not tell which ones it holds after it.
#[verifier::external_body]
pub(crate) fn known_addresses(dht: &mut Dht, peer: &[u8]) -> (list: Vec<Vec<u8>>)
    requires
        is_peer_id(peer@),
    ensures
        dht_view(*final(dht)) == dht_view(*old(dht)),
        forall|i: int| 0 <= i < list@.len() ==> is_address((#[trigger] list@[i])@),
        views(list@).to_multiset() == dht_addresses(*final(dht), peer@),
        dht_routed(*final(dht), peer@).is_prefix_of(views(list@)),
{
    let id = libp2p::PeerId::from_bytes(peer).unwrap();
    let list = libp2p::swarm::NetworkBehaviour::addresses_of_peer(dht, &id);
    list.iter().map(|address| address.to_vec()).collect()
}

/// `libp2p::PeerId::random`: the identity of a peer. Which one is left to chance.
#[verifier::external_body]
pub(crate) fn random_peer_id() -> (id: Vec<u8>)
    ensures
        is_peer_id(id@),
{
    libp2p::PeerId::random().to_bytes()
}

} // verus!
