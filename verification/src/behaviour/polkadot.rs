//! The block sync behaviour: which connection a request goes out on, when it is
//! given up, and what is answered.
use crate::block::{header_of, Header, HeaderView};
use crate::octets::{copy_bytes, views};
use crate::peer::{Multiaddr, PeerId};
use crate::protocol::net_protocol::{
    protobuf_request, BlockAttributes, BlockData, BlockHash, BlockRequest, BlockResponse,
    Extrinsic, PolkadotOutProtocol, PolkadotProtocolEvent, ReceivedBlock, BODY,
};
use crate::scale::{
    bytes_at, bytes_of, codec_text, decode_bytes, decode_hash, decode_number, hash_of,
    lemma_bytes_at_unique, number_of, CodecError,
};
use crate::schema;
use crate::schema::{
    request_bytes, request_of, request_round_trip, response_bytes, response_of,
    response_round_trip,
};
use crate::time::{in_range, later, secs, span, Duration, Instant};
use std::collections::VecDeque;
use vstd::prelude::*;

verus! {

/// How long a request may go unanswered.
pub const REQUEST_TIMEOUT_SECS: u64 = 40;

/// How long a connection without substreams is kept.
pub const KEEP_ALIVE_TIMEOUT_SECS: u64 = 15;

/// How long opening a substream may take.
pub const OUTBOUND_SUBSTREAM_TIMEOUT_SECS: u64 = 40;

/// What the behaviour tells the node.
#[allow(non_camel_case_types)]
#[derive(Debug)]
pub enum ioEvent {
    /// A request of a peer was answered.
    AnsweredRequest { peer: PeerId, total_handling_time: Duration },
    /// A peer answered a request.
    Response { peer: PeerId, original_request: BlockRequest, response: BlockResponse },
    /// A peer did not answer a request in time.
    RequestTimeout { peer: PeerId, original_request: BlockRequest, request_duration: Duration },
}

/// A request that is not answered yet.
#[derive(Debug, Clone, Copy)]
pub struct OngoingRequest {
    /// When it was sent.
    pub emitted: Instant,
    pub request: BlockRequest,
    /// When it is given up.
    pub timeout: Instant,
}

/// A connection to a peer, known to the network by its handle.
#[derive(Debug, Clone, Copy)]
pub struct Connection<C> {
    pub id: C,
    pub ongoing_request: Option<OngoingRequest>,
}

/// A peer with its connections, the oldest first.
#[derive(Debug)]
pub struct Peer<C> {
    pub id: PeerId,
    pub connections: Vec<Connection<C>>,
}

/// What became of sending a request.
#[derive(Debug)]
#[must_use]
pub enum SendRequestOutcome {
    /// The request was queued.
    Sent,
    /// The request was queued in the place of another.
    Replaced { previous: BlockRequest, request_duration: Duration },
    /// There is no connection to the peer.
    NotConnected,
}

/// What the behaviour asks of the network.
#[derive(Debug)]
pub enum PolkadotAction<C> {
    /// Hand a request to the connection with this handle.
    NotifyHandler { peer_id: PeerId, connection: C, event: PolkadotOutProtocol },
    /// Tell the node.
    GenerateEvent(ioEvent),
}

/// What the network is to do next.
#[derive(Debug)]
pub enum PolkadotStep<C> {
    /// Carry out an action.
    Ready(PolkadotAction<C>),
    /// Look at the answers that are being written.
    PollOutgoing,
    /// Nothing.
    Pending,
}

/// Why a request of a peer is not answered.
#[derive(Debug, Clone, Copy, PartialEq, Eq, Structural)]
pub enum RequestError {
    /// The hash or the number that the range starts at cannot be read.
    Codec(CodecError),
    /// It is not said where the range starts.
    MissingFromBlock,
}

/// What is said of a request that is not answered.
pub open spec fn request_error_text(e: RequestError) -> Seq<char> {
    match e {
        RequestError::Codec(e) => codec_text(e),
        RequestError::MissingFromBlock => "missing `BlockRequest::from_block` field"@,
    }
}

impl RequestError {
    /// What is said of the error.
    pub fn message(&self) -> (text: &'static str)
        ensures
            text@ == request_error_text(*self),
    {
        match self {
            RequestError::Codec(e) => e.message(),
            RequestError::MissingFromBlock => "missing `BlockRequest::from_block` field",
        }
    }
}

/// What came of an event on a connection.
#[derive(Debug)]
pub enum Injected<T> {
    /// A request is to be answered: `data` goes out on the socket.
    Answer { peer: PeerId, data: Vec<u8>, socket: T, handling_start: Instant },
    /// A request is not answered.
    RequestFailed(RequestError),
    /// The response to a request of ours was queued for the node.
    Queued,
    /// The response to a request of ours cannot be read.
    ResponseFailed(CodecError),
}

/// What a peer with its connections stands for.
pub struct PeerView<C> {
    pub id: Seq<u8>,
    pub connections: Seq<Connection<C>>,
}

impl<C> View for Peer<C> {
    type V = PeerView<C>;

    open spec fn view(&self) -> PeerView<C> {
        PeerView { id: self.id@, connections: self.connections@ }
    }
}

/// The state of the behaviour: what waits for the network, and the peers in the
/// order in which they came.
pub struct PolkadotView<C> {
    pub welcome_message: Seq<char>,
    pub actions: Seq<PolkadotAction<C>>,
    pub peers: Seq<PeerView<C>>,
}

/// The behaviour.
pub struct PolkadotBehaviour<C> {
    welcome_message: String,
    network_actions: VecDeque<PolkadotAction<C>>,
    peer: Vec<Peer<C>>,
}

/// The peers that a list of them stands for.
pub open spec fn peer_views<C>(list: Seq<Peer<C>>) -> Seq<PeerView<C>> {
    Seq::new(list.len(), |i: int| list[i]@)
}

impl<C> View for PolkadotBehaviour<C> {
    type V = PolkadotView<C>;

    closed spec fn view(&self) -> PolkadotView<C> {
        PolkadotView {
            welcome_message: self.welcome_message@,
            actions: self.network_actions@,
            peers: peer_views(self.peer@),
        }
    }
}

/// Whether the peer at `i` is the one with that identity.
pub open spec fn is_peer<C>(peers: Seq<PeerView<C>>, id: Seq<u8>, i: int) -> bool {
    0 <= i < peers.len() && peers[i].id == id
}

/// Whether a peer is known.
pub open spec fn knows<C>(peers: Seq<PeerView<C>>, id: Seq<u8>) -> bool {
    exists|i: int| is_peer(peers, id, i)
}

/// Where a known peer stands.
pub open spec fn position<C>(peers: Seq<PeerView<C>>, id: Seq<u8>) -> int {
    choose|i: int| is_peer(peers, id, i)
}

/// Whether at most one of some connections waits for an answer.
pub open spec fn one_ongoing<C>(connections: Seq<Connection<C>>) -> bool {
    forall|j: int, k: int|
        0 <= j < connections.len() && 0 <= k < connections.len()
            && connections[j].ongoing_request is Some && connections[k].ongoing_request is Some
            ==> j == k
}

impl<C> PolkadotView<C> {
    /// No peer stands there twice, every peer has a connection, and every peer
    /// has at most one request to answer.
    pub open spec fn wf(self) -> bool {
        &&& forall|i: int, j: int|
            0 <= i < self.peers.len() && 0 <= j < self.peers.len() && self.peers[i].id
                == self.peers[j].id ==> i == j
        &&& forall|i: int|
            #![trigger self.peers[i]]
            0 <= i < self.peers.len() ==> self.peers[i].connections.len() > 0 && one_ongoing(
                self.peers[i].connections,
            )
    }
}

/// Whether the connection at `j` is the first that waits for an answer.
pub open spec fn first_ongoing<C>(connections: Seq<Connection<C>>, j: int) -> bool {
    &&& 0 <= j < connections.len()
    &&& connections[j].ongoing_request is Some
    &&& forall|k: int| 0 <= k < j ==> connections[k].ongoing_request is None
}

/// The connection that a request goes out on: the first that waits for an answer
/// already, else the oldest.
pub open spec fn chosen_connection<C>(connections: Seq<Connection<C>>) -> int {
    if exists|j: int| first_ongoing(connections, j) {
        choose|j: int| first_ongoing(connections, j)
    } else {
        0
    }
}

/// Whether a connection waits for an answer that is overdue.
pub open spec fn overdue<C>(connection: Connection<C>, now: Instant) -> bool {
    connection.ongoing_request matches Some(ongoing) && now.nanos >= ongoing.timeout.nanos
}

/// Whether the connection at `j` of the peer at `i` is the first that is overdue.
pub open spec fn first_overdue<C>(peers: Seq<PeerView<C>>, now: Instant, i: int, j: int) -> bool {
    &&& 0 <= i < peers.len()
    &&& 0 <= j < peers[i].connections.len()
    &&& overdue(peers[i].connections[j], now)
    &&& forall|k: int| 0 <= k < j ==> !overdue(#[trigger] peers[i].connections[k], now)
    &&& forall|h: int, k: int|
        0 <= h < i && 0 <= k < peers[h].connections.len() ==> !overdue(
            #[trigger] peers[h].connections[k],
            now,
        )
}

/// Whether no connection is overdue.
pub open spec fn none_overdue<C>(peers: Seq<PeerView<C>>, now: Instant) -> bool {
    forall|h: int, k: int|
        0 <= h < peers.len() && 0 <= k < peers[h].connections.len() ==> !overdue(
            #[trigger] peers[h].connections[k],
            now,
        )
}

/// The peers once the request on one connection of one of them was given up.
pub open spec fn given_up<C>(peers: Seq<PeerView<C>>, i: int, j: int) -> Seq<PeerView<C>> {
    with_connection(
        peers,
        i,
        j,
        Connection { id: peers[i].connections[j].id, ongoing_request: None },
    )
}

/// Whether a step tells the node that the request on a connection of a peer was
/// not answered in time, and how long it went unanswered.
pub open spec fn tells_timeout<C>(
    step: PolkadotStep<C>,
    peer: PeerView<C>,
    j: int,
    now: Instant,
) -> bool {
    &&& step matches PolkadotStep::Ready(
        PolkadotAction::GenerateEvent(
            ioEvent::RequestTimeout { peer: id, original_request, request_duration },
        ),
    )
    &&& peer.connections[j].ongoing_request matches Some(ongoing)
    &&& id@ == peer.id
    &&& original_request == ongoing.request
    &&& request_duration == span(ongoing.emitted, now)
}

/// The peers after one connection of one of them was changed.
pub open spec fn with_connection<C>(
    peers: Seq<PeerView<C>>,
    i: int,
    j: int,
    connection: Connection<C>,
) -> Seq<PeerView<C>> {
    peers.update(
        i,
        PeerView { connections: peers[i].connections.update(j, connection), ..peers[i] },
    )
}

/// The blocks that a list of them stands for.
pub open spec fn received_views(list: Seq<BlockData<Header, BlockHash, Extrinsic>>) -> Seq<
    ReceivedBlock,
> {
    Seq::new(list.len(), |i: int| list[i]@)
}

/// The header of a received block, which is not there where its bytes are empty;
/// nothing where the bytes are those of no header.
pub open spec fn received_header(b: Seq<u8>) -> Option<Option<HeaderView>> {
    if b.len() == 0 {
        Some(None)
    } else {
        match header_of(b) {
            Some((encoded, number)) => Some(Some(HeaderView { encoded, number })),
            None => None,
        }
    }
}

/// The extrinsics of a received block; nothing where one of them cannot be read.
pub open spec fn received_extrinsics(body: Seq<Seq<u8>>) -> Option<Seq<Seq<u8>>> {
    if forall|i: int| 0 <= i < body.len() ==> bytes_of(#[trigger] body[i]) is Some {
        Some(Seq::new(body.len(), |i: int| bytes_of(body[i])->0))
    } else {
        None
    }
}

/// The body of a received block, which is there where bodies were asked for.
pub open spec fn received_body(fields: u8, body: Seq<Seq<u8>>) -> Option<Option<Seq<Seq<u8>>>> {
    if fields & BODY == BODY {
        match received_extrinsics(body) {
            Some(extrinsics) => Some(Some(extrinsics)),
            None => None,
        }
    } else {
        Some(None)
    }
}

/// A received block, if its hash, its header and what was asked for of its body
/// can be read.
pub open spec fn received_block(fields: u8, block: schema::BlockDataView) -> Option<
    ReceivedBlock,
> {
    match (hash_of(block.hash), received_header(block.header), received_body(fields, block.body)) {
        (Some(hash), Some(header), Some(body)) => Some(assembled(block, hash, header, body)),
        _ => None,
    }
}

/// A received block, from its hash, its header and its body. The receipt goes with the
/// message queue: both are there, or neither is.
pub open spec fn assembled(
    block: schema::BlockDataView,
    hash: Seq<u8>,
    header: Option<HeaderView>,
    body: Option<Seq<Seq<u8>>>,
) -> ReceivedBlock {
    ReceivedBlock {
        hash,
        header,
        body,
        receipt: if block.message_queue.len() > 0 {
            Some(block.receipt)
        } else {
            None
        },
        message_queue: if block.message_queue.len() > 0 {
            Some(block.message_queue)
        } else {
            None
        },
        justification: if block.justification.len() > 0 {
            Some(block.justification)
        } else if block.is_empty_justification {
            Some(Seq::empty())
        } else {
            None
        },
    }
}

/// The blocks of a response; nothing where one of them cannot be read.
pub open spec fn received_blocks(fields: u8, blocks: Seq<schema::BlockDataView>) -> Option<
    Seq<ReceivedBlock>,
> {
    if forall|i: int|
        0 <= i < blocks.len() ==> received_block(fields, #[trigger] blocks[i]) is Some {
        Some(Seq::new(blocks.len(), |i: int| received_block(fields, blocks[i])->0))
    } else {
        None
    }
}

/// Why a request is not answered, if it is not.
pub open spec fn request_error(request: schema::BlockRequestView) -> Option<RequestError> {
    match request.from_block {
        Some(schema::FromBlockView::Hash(bytes)) => if hash_of(bytes) is Some {
            None
        } else {
            Some(RequestError::Codec(CodecError::Malformed))
        },
        Some(schema::FromBlockView::Number(bytes)) => if number_of(bytes) is Some {
            None
        } else {
            Some(RequestError::Codec(CodecError::Malformed))
        },
        None => Some(RequestError::MissingFromBlock),
    }
}

/// Whether an event tells the node of the response to a request of ours.
pub open spec fn tells_response<C>(
    action: PolkadotAction<C>,
    from: Seq<u8>,
    request: BlockRequest,
    blocks: Seq<ReceivedBlock>,
) -> bool {
    &&& action matches PolkadotAction::GenerateEvent(
        ioEvent::Response { peer, original_request, response },
    )
    &&& peer@ == from
    &&& original_request == request
    &&& response.id == request.id
    &&& received_views(response.blocks@) == blocks
}

/// Reads the extrinsics of a block.
fn decode_extrinsics(body: &Vec<Vec<u8>>) -> (r: Result<Vec<Extrinsic>, CodecError>)
    ensures
        match r {
            Ok(extrinsics) => received_extrinsics(views(body@)) == Some(views(extrinsics@)),
            Err(e) => received_extrinsics(views(body@)) is None && e == CodecError::Malformed,
        },
{
    let mut extrinsics: Vec<Extrinsic> = Vec::new();
    let mut i: usize = 0;
    while i < body.len()
        invariant
            i <= body@.len(),
            extrinsics@.len() == i,
            forall|j: int|
                0 <= j < i ==> bytes_of(#[trigger] views(body@)[j]) == Some(extrinsics@[j]@),
        decreases body@.len() - i,
    {
        assert(views(body@)[i as int] == body@[i as int]@);
        match decode_bytes(body[i].as_slice()).0 {
            Ok(extrinsic) => {
                let ghost found = choose|data: Seq<u8>| bytes_at(body@[i as int]@, data);
                proof {
                    lemma_bytes_at_unique(body@[i as int]@, extrinsic@, found);
                }
                extrinsics.push(extrinsic);
            },
            Err(_) => {
                return Err(CodecError::Malformed);
            },
        }
        i = i + 1;
    }
    assert(received_extrinsics(views(body@))->0 =~= views(extrinsics@));
    Ok(extrinsics)
}

/// Reads a block of the response to a request for the parts in `fields`.
fn decode_block(fields: BlockAttributes, block: &schema::BlockData) -> (r: Result<
    BlockData<Header, BlockHash, Extrinsic>,
    CodecError,
>)
    ensures
        match r {
            Ok(received) => received_block(fields@, block@) == Some(received@),
            Err(e) => received_block(fields@, block@) is None && e == CodecError::Malformed,
        },
{
    let hash = match decode_hash(block.hash.as_slice()) {
        Ok((hash, _)) => hash,
        Err(_) => return Err(CodecError::Malformed),
    };
    let header = if block.header.len() > 0 {
        match Header::decode(block.header.as_slice()) {
            Ok((header, _)) => Some(header),
            Err(e) => return Err(e),
        }
    } else {
        None
    };
    let body = if fields.contains(BODY) {
        match decode_extrinsics(&block.body) {
            Ok(extrinsics) => Some(extrinsics),
            Err(e) => return Err(e),
        }
    } else {
        None
    };
    let received = assemble_block(block, hash, header, body);
    assert(received_block(fields@, block@)->0 =~= received@);
    Ok(received)
}

/// A received block, from its hash, its header and its body.
pub fn assemble_block(
    block: &schema::BlockData,
    hash: BlockHash,
    header: Option<Header>,
    body: Option<Vec<Extrinsic>>,
) -> (received: BlockData<Header, BlockHash, Extrinsic>)
    ensures
        received.hash == hash,
        received.header == header,
        received.body == body,
        received@ == assembled(block@, hash@, received@.header, received@.body),
        block.justification@.len() > 0 ==> (received.justification matches Some(bytes) && bytes@
            == block.justification@),
        block.justification@.len() == 0 && block.is_empty_justification ==> (
        received.justification matches Some(bytes) && bytes@.len() == 0),
        block.justification@.len() == 0 && !block.is_empty_justification
            ==> received.justification is None,
        block.message_queue@.len() > 0 ==> (received.message_queue matches Some(bytes) && bytes@
            == block.message_queue@) && (received.receipt matches Some(bytes) && bytes@
            == block.receipt@),
        block.message_queue@.len() == 0 ==> received.message_queue is None && received.receipt
            is None,
{
    let receipt = if block.message_queue.len() > 0 {
        Some(copy_bytes(block.receipt.as_slice()))
    } else {
        None
    };
    let message_queue = if block.message_queue.len() > 0 {
        Some(copy_bytes(block.message_queue.as_slice()))
    } else {
        None
    };
    let justification = if block.justification.len() > 0 {
        Some(copy_bytes(block.justification.as_slice()))
    } else if block.is_empty_justification {
        Some(Vec::new())
    } else {
        None
    };
    let received = BlockData { hash, header, body, receipt, message_queue, justification };
    assert(received@ =~= assembled(block@, hash@, received@.header, received@.body));
    received
}

/// Reads the blocks of the response to a request for the parts in `fields`.
pub fn decode_blocks(fields: BlockAttributes, response: &schema::BlockResponse) -> (r: Result<
    Vec<BlockData<Header, BlockHash, Extrinsic>>,
    CodecError,
>)
    ensures
        match r {
            Ok(blocks) => received_blocks(fields@, response@) == Some(received_views(blocks@)),
            Err(e) => received_blocks(fields@, response@) is None && e == CodecError::Malformed,
        },
{
    let mut blocks: Vec<BlockData<Header, BlockHash, Extrinsic>> = Vec::new();
    let mut i: usize = 0;
    while i < response.blocks.len()
        invariant
            i <= response.blocks@.len(),
            blocks@.len() == i,
            forall|j: int|
                0 <= j < i ==> received_block(fields@, #[trigger] response@[j]) == Some(
                    blocks@[j]@,
                ),
        decreases response.blocks@.len() - i,
    {
        assert(response@[i as int] == response.blocks@[i as int]@);
        match decode_block(fields, &response.blocks[i]) {
            Ok(block) => blocks.push(block),
            Err(e) => {
                return Err(e);
            },
        }
        i = i + 1;
    }
    assert(received_blocks(fields@, response@)->0 =~= received_views(blocks@));
    Ok(blocks)
}

/// Where one connection waits for an answer, one is the first that does.
proof fn lemma_first_ongoing_exists<C>(connections: Seq<Connection<C>>, k: int)
    requires
        0 <= k < connections.len(),
        connections[k].ongoing_request is Some,
    ensures
        exists|j: int| first_ongoing(connections, j),
    decreases k,
{
    if exists|h: int| 0 <= h < k && connections[h].ongoing_request is Some {
        let h = choose|h: int| 0 <= h < k && connections[h].ongoing_request is Some;
        lemma_first_ongoing_exists(connections, h);
    } else {
        assert(first_ongoing(connections, k));
    }
}

/// Putting a request on the chosen connection leaves at most one to answer.
proof fn lemma_chosen_keeps_one<C>(connections: Seq<Connection<C>>, c: Connection<C>)
    requires
        one_ongoing(connections),
        connections.len() > 0,
    ensures
        one_ongoing(connections.update(chosen_connection(connections), c)),
{
    let chosen = chosen_connection(connections);
    let after = connections.update(chosen, c);
    assert forall|j: int, k: int|
        0 <= j < after.len() && 0 <= k < after.len() && after[j].ongoing_request is Some
            && after[k].ongoing_request is Some implies j == k by {
        if j != chosen {
            lemma_first_ongoing_exists(connections, j);
            assert(first_ongoing(connections, chosen));
        }
        if k != chosen {
            lemma_first_ongoing_exists(connections, k);
            assert(first_ongoing(connections, chosen));
        }
    }
}

impl<C: Copy> PolkadotBehaviour<C> {
    pub fn new(welcome_message: String) -> (b: PolkadotBehaviour<C>)
        ensures
            b@.welcome_message == welcome_message@,
            b@.actions == Seq::<PolkadotAction<C>>::empty(),
            b@.peers == Seq::<PeerView<C>>::empty(),
            b@.wf(),
    {
        let b = PolkadotBehaviour {
            welcome_message,
            network_actions: VecDeque::new(),
            peer: Vec::new(),
        };
        assert(b@.peers =~= Seq::<PeerView<C>>::empty());
        b
    }

    /// Where a peer stands.
    fn find_peer(&self, id: &PeerId) -> (r: Option<usize>)
        ensures
            match r {
                Some(i) => is_peer(self@.peers, id@, i as int) && i < self.peer@.len(),
                None => !knows(self@.peers, id@),
            },
    {
        let mut i: usize = 0;
        while i < self.peer.len()
            invariant
                i <= self.peer@.len(),
                forall|j: int| 0 <= j < i ==> !is_peer(self@.peers, id@, j),
            decreases self.peer@.len() - i,
        {
            if self.peer[i].id.same(id) {
                assert(is_peer(self@.peers, id@, i as int));
                return Some(i);
            }
            i = i + 1;
        }
        None
    }

    /// The connection that a request goes out on.
    fn find_connection(connections: &Vec<Connection<C>>) -> (j: usize)
        requires
            connections@.len() > 0,
        ensures
            j == chosen_connection(connections@),
            j < connections@.len(),
    {
        let mut j: usize = 0;
        while j < connections.len()
            invariant
                j <= connections@.len(),
                forall|k: int| 0 <= k < j ==> connections@[k].ongoing_request is None,
            decreases connections@.len() - j,
        {
            if connections[j].ongoing_request.is_some() {
                assert(first_ongoing(connections@, j as int));
                let ghost first = choose|k: int| first_ongoing(connections@, k);
                assert(first == j);
                return j;
            }
            j = j + 1;
        }
        assert(!exists|k: int| first_ongoing(connections@, k));
        0
    }

    /// Sends a request to a peer: on the connection where an earlier request is
    /// not answered yet, whose place it takes, else on the oldest connection.
    pub fn send_request(&mut self, target: &PeerId, req: BlockRequest, now: Instant) -> (outcome:
        SendRequestOutcome)
        requires
            old(self)@.wf(),
        ensures
            final(self)@.wf(),
            final(self)@.welcome_message == old(self)@.welcome_message,
            !knows(old(self)@.peers, target@) ==> outcome is NotConnected && final(self)@
                == old(self)@,
            knows(old(self)@.peers, target@) ==> ({
                let i = position(old(self)@.peers, target@);
                let connections = old(self)@.peers[i].connections;
                let j = chosen_connection(connections);
                let ongoing = OngoingRequest {
                    emitted: now,
                    request: req,
                    timeout: later(now, secs(REQUEST_TIMEOUT_SECS as nat)),
                };
                &&& final(self)@.peers == with_connection(
                    old(self)@.peers,
                    i,
                    j,
                    Connection { id: connections[j].id, ongoing_request: Some(ongoing) },
                )
                &&& final(self)@.actions.len() == old(self)@.actions.len() + 1
                &&& final(self)@.actions.drop_last() == old(self)@.actions
                &&& final(self)@.actions.last() matches PolkadotAction::NotifyHandler {
                    peer_id,
                    connection,
                    event,
                } && peer_id@ == target@ && connection == connections[j].id
                    && event.recv_request == req && event.block_protobuf_request@ == request_bytes(
                    protobuf_request(req.fields@, req.from, req.to, req.direction, req.max),
                )
                &&& outcome == (match connections[j].ongoing_request {
                    Some(previous) => SendRequestOutcome::Replaced {
                        previous: previous.request,
                        request_duration: span(previous.emitted, now),
                    },
                    None => SendRequestOutcome::Sent,
                })
            }),
    {
        let i = match self.find_peer(target) {
            Some(i) => i,
            None => return SendRequestOutcome::NotConnected,
        };
        proof {
            assert(is_peer(self@.peers, target@, position(self@.peers, target@)));
            assert(self@.peers[i as int].connections == self.peer@[i as int].connections@);
        }
        let j = Self::find_connection(&self.peer[i].connections);
        let protobuf_rq = req.to_protobuf();
        let buf = protobuf_rq.encode();
        let ghost before = self@;
        let connection = self.peer[i].connections[j];
        let previous_request = connection.ongoing_request;
        self.peer[i].connections[j] = Connection {
            id: connection.id,
            ongoing_request: Some(
                OngoingRequest {
                    emitted: now,
                    request: req,
                    timeout: now.after(Duration::from_secs(REQUEST_TIMEOUT_SECS)),
                },
            ),
        };
        self.network_actions.push_back(
            PolkadotAction::NotifyHandler {
                peer_id: target.clone(),
                connection: connection.id,
                event: PolkadotOutProtocol { block_protobuf_request: buf, recv_request: req },
            },
        );
        proof {
            let changed = self.peer@[i as int].connections@[j as int];
            assert(self@.peers =~= with_connection(before.peers, i as int, j as int, changed));
            assert(self@.actions.drop_last() =~= before.actions);
            lemma_chosen_keeps_one(before.peers[i as int].connections, changed);
        }
        match previous_request {
            Some(previous) => SendRequestOutcome::Replaced {
                previous: previous.request,
                request_duration: now.since(previous.emitted),
            },
            None => SendRequestOutcome::Sent,
        }
    }

    /// Takes note of a connection to a peer.
    pub fn inject_connection_established(&mut self, peer_id: &PeerId, id: C)
        requires
            old(self)@.wf(),
        ensures
            final(self)@.wf(),
            final(self)@.welcome_message == old(self)@.welcome_message,
            final(self)@.actions == old(self)@.actions,
            final(self)@.peers == ({
                let connection = Connection { id, ongoing_request: None };
                if knows(old(self)@.peers, peer_id@) {
                    let i = position(old(self)@.peers, peer_id@);
                    old(self)@.peers.update(
                        i,
                        PeerView {
                            connections: old(self)@.peers[i].connections.push(connection),
                            ..old(self)@.peers[i]
                        },
                    )
                } else {
                    old(self)@.peers.push(
                        PeerView { id: peer_id@, connections: seq![connection] },
                    )
                }
            }),
    {
        let ghost before = self@;
        let connection = Connection { id, ongoing_request: None };
        match self.find_peer(peer_id) {
            Some(i) => {
                proof {
                    assert(is_peer(before.peers, peer_id@, position(before.peers, peer_id@)));
                }
                self.peer[i].connections.push(connection);
                proof {
                    let connections = before.peers[i as int].connections;
                    assert(self@.peers =~= before.peers.update(
                        i as int,
                        PeerView {
                            connections: connections.push(connection),
                            ..before.peers[i as int]
                        },
                    ));
                    assert(one_ongoing(connections));
                    assert(one_ongoing(connections.push(connection)));
                }
            },
            None => {
                let mut connections: Vec<Connection<C>> = Vec::new();
                connections.push(connection);
                self.peer.push(Peer { id: peer_id.clone(), connections });
                proof {
                    let peer = PeerView { id: peer_id@, connections: seq![connection] };
                    assert(connections@ =~= seq![connection]);
                    assert(self@.peers =~= before.peers.push(peer));
                    assert forall|i: int, j: int|
                        0 <= i < self@.peers.len() && 0 <= j < self@.peers.len()
                            && self@.peers[i].id == self@.peers[j].id implies i == j by {
                        assert(!is_peer(before.peers, peer_id@, i));
                        assert(!is_peer(before.peers, peer_id@, j));
                    }
                }
            },
        }
    }

    /// What the behaviour wants done now: first what was queued, the oldest first;
    /// then the word that a request is overdue, which gives the request up.
    pub fn poll(&mut self, now: Instant) -> (step: PolkadotStep<C>)
        requires
            old(self)@.wf(),
        ensures
            final(self)@.wf(),
            final(self)@.welcome_message == old(self)@.welcome_message,
            old(self)@.actions.len() > 0 ==> step == PolkadotStep::Ready(old(self)@.actions[0])
                && final(self)@.actions == old(self)@.actions.drop_first() && final(self)@.peers
                == old(self)@.peers,
            old(self)@.actions.len() == 0 ==> final(self)@.actions == old(self)@.actions,
            old(self)@.actions.len() == 0 && none_overdue(old(self)@.peers, now) ==> (step
                is PollOutgoing) && final(self)@ == old(self)@,
            old(self)@.actions.len() == 0 && !none_overdue(old(self)@.peers, now) ==> exists|
                i: int,
                j: int,
            |
                #[trigger] first_overdue(old(self)@.peers, now, i, j) && final(self)@.peers
                    == given_up(old(self)@.peers, i, j) && tells_timeout(
                    step,
                    old(self)@.peers[i],
                    j,
                    now,
                ),
    {
        if let Some(action) = self.network_actions.pop_front() {
            assert(self@.actions =~= old(self)@.actions.drop_first());
            assert(self@.peers == old(self)@.peers);
            return PolkadotStep::Ready(action);
        }
        let ghost before = self@;
        let mut i: usize = 0;
        while i < self.peer.len()
            invariant
                i <= self.peer@.len(),
                self@ == before,
                before.wf(),
                before == old(self)@,
                before.actions.len() == 0,
                forall|h: int, k: int|
                    0 <= h < i && 0 <= k < before.peers[h].connections.len() ==> !overdue(
                        #[trigger] before.peers[h].connections[k],
                        now,
                    ),
            decreases before.peers.len() - i,
        {
            assert(before.peers[i as int].connections == self.peer@[i as int].connections@);
            let mut j: usize = 0;
            while j < self.peer[i].connections.len()
                invariant
                    i < self.peer@.len(),
                    j <= self.peer@[i as int].connections@.len(),
                    before.peers[i as int].connections == self.peer@[i as int].connections@,
                    self@ == before,
                    before.wf(),
                    before == old(self)@,
                    before.actions.len() == 0,
                    forall|h: int, k: int|
                        0 <= h < i && 0 <= k < before.peers[h].connections.len() ==> !overdue(
                            #[trigger] before.peers[h].connections[k],
                            now,
                        ),
                    forall|k: int|
                        0 <= k < j ==> !overdue(
                            #[trigger] before.peers[i as int].connections[k],
                            now,
                        ),
                decreases self.peer@[i as int].connections@.len() - j,
            {
                let connection = self.peer[i].connections[j];
                if let Some(ongoing) = connection.ongoing_request {
                    if now.nanos >= ongoing.timeout.nanos {
                        let request_duration = now.since(ongoing.emitted);
                        self.peer[i].connections[j] = Connection {
                            id: connection.id,
                            ongoing_request: None,
                        };
                        proof {
                            let after = self.peer@[i as int].connections@;
                            assert(first_overdue(before.peers, now, i as int, j as int));
                            assert(self@.peers =~= given_up(before.peers, i as int, j as int));
                            assert(one_ongoing(before.peers[i as int].connections));
                            assert(one_ongoing(after));
                        }
                        let event = ioEvent::RequestTimeout {
                            peer: self.peer[i].id.clone(),
                            original_request: ongoing.request,
                            request_duration,
                        };
                        let step = PolkadotStep::Ready(PolkadotAction::GenerateEvent(event));
                        assert(tells_timeout(step, before.peers[i as int], j as int, now));
                        return step;
                    }
                }
                j = j + 1;
            }
            i = i + 1;
        }
        PolkadotStep::PollOutgoing
    }

    /// What the behaviour wants done once the answers that are being written were
    /// looked at, and one of them was finished, or none.
    pub fn poll_outgoing(&self, finished: Option<(PeerId, Duration)>) -> (step: PolkadotStep<C>)
        ensures
            match finished {
                Some((p, time)) => step == PolkadotStep::Ready(
                    PolkadotAction::<C>::GenerateEvent(
                        ioEvent::AnsweredRequest { peer: p, total_handling_time: time },
                    ),
                ),
                None => step is Pending,
            },
    {
        match finished {
            Some((peer, total_handling_time)) => PolkadotStep::Ready(
                PolkadotAction::GenerateEvent(
                    ioEvent::AnsweredRequest { peer, total_handling_time },
                ),
            ),
            None => PolkadotStep::Pending,
        }
    }

    /// The answer to a request: it holds no block, as the node keeps none, and
    /// comes where the start of the range can be read.
    pub fn on_block_request(&self, request: &schema::BlockRequest) -> (r: Result<
        schema::BlockResponse,
        RequestError,
    >)
        ensures
            match r {
                Ok(response) => request_error(request@) is None && response@ == Seq::<
                    schema::BlockDataView,
                >::empty(),
                Err(e) => request_error(request@) == Some(e),
            },
    {
        match &request.from_block {
            Some(schema::FromBlock::Hash(h)) => {
                if decode_hash(h.as_slice()).is_err() {
                    return Err(RequestError::Codec(CodecError::Malformed));
                }
            },
            Some(schema::FromBlock::Number(n)) => {
                if decode_number(n.as_slice()).is_err() {
                    return Err(RequestError::Codec(CodecError::Malformed));
                }
            },
            None => {
                return Err(RequestError::MissingFromBlock);
            },
        }
        let response = schema::BlockResponse { blocks: Vec::new() };
        assert(response@ =~= Seq::<schema::BlockDataView>::empty());
        Ok(response)
    }

    /// Takes up what came of a substream of a peer.
    pub fn inject_event<T>(&mut self, peer: PeerId, node_event: PolkadotProtocolEvent<T>) -> (r:
        Injected<T>)
        ensures
            final(self)@.welcome_message == old(self)@.welcome_message,
            final(self)@.peers == old(self)@.peers,
            old(self)@.wf() ==> final(self)@.wf(),
            match node_event {
                PolkadotProtocolEvent::Request(request, stream, start) => {
                    &&& final(self)@.actions == old(self)@.actions
                    &&& match request_error(request@) {
                        Some(e) => r == Injected::<T>::RequestFailed(e),
                        None => r matches Injected::Answer {
                            peer: p,
                            data,
                            socket,
                            handling_start,
                        } && p == peer && data@ == response_bytes(Seq::empty()) && socket
                            == stream && handling_start == start,
                    }
                },
                PolkadotProtocolEvent::Response(request, response) => {
                    match received_blocks(request.fields@, response@) {
                        Some(blocks) => {
                            &&& r is Queued
                            &&& final(self)@.actions.len() == old(self)@.actions.len() + 1
                            &&& final(self)@.actions.drop_last() == old(self)@.actions
                            &&& tells_response(
                                final(self)@.actions.last(),
                                peer@,
                                request,
                                blocks,
                            )
                        },
                        None => {
                            &&& r == Injected::<T>::ResponseFailed(CodecError::Malformed)
                            &&& final(self)@.actions == old(self)@.actions
                        },
                    }
                },
            },
    {
        match node_event {
            PolkadotProtocolEvent::Request(request, socket, handling_start) => {
                match self.on_block_request(&request) {
                    Ok(response) => {
                        let data = response.encode();
                        Injected::Answer { peer, data, socket, handling_start }
                    },
                    Err(e) => Injected::RequestFailed(e),
                }
            },
            PolkadotProtocolEvent::Response(original_request, response) => {
                match decode_blocks(original_request.fields, &response) {
                    Ok(blocks) => {
                        let ghost before = self@;
                        let id = original_request.id;
                        let event = ioEvent::Response {
                            peer,
                            original_request,
                            response: BlockResponse { id, blocks },
                        };
                        self.network_actions.push_back(PolkadotAction::GenerateEvent(event));
                        assert(self@.actions.drop_last() =~= before.actions);
                        Injected::Queued
                    },
                    Err(e) => Injected::ResponseFailed(e),
                }
            },
        }
    }

    /// The addresses of a peer that the behaviour knows: none.
    pub fn addresses_of_peer(&self, peer_id: &PeerId) -> (addresses: Vec<Multiaddr>)
        ensures
            addresses@.len() == 0,
    {
        Vec::new()
    }
}

/// The request that `send_request` sends is read back by the peer that takes it
/// up, and is answered.
pub proof fn own_requests_are_answered(req: BlockRequest)
    ensures
        ({
            let message = protobuf_request(req.fields@, req.from, req.to, req.direction, req.max);
            &&& request_of(request_bytes(message)) == Some(message)
            &&& request_error(message) is None
        }),
{
    let message = protobuf_request(req.fields@, req.from, req.to, req.direction, req.max);
    request_round_trip(message);
}

/// The answer to a request is read back as a response without blocks.
pub proof fn answers_are_read_back(fields: u8)
    ensures
        response_of(response_bytes(Seq::empty())) == Some(Seq::<schema::BlockDataView>::empty()),
        received_blocks(fields, Seq::empty()) == Some(Seq::<ReceivedBlock>::empty()),
{
    response_round_trip(Seq::empty());
    assert(received_blocks(fields, Seq::empty())->0 =~= Seq::<ReceivedBlock>::empty());
}

/// A request that was sent to a peer is the only one that the peer has to answer, and the
/// next one takes its place, on the same connection.
pub proof fn requests_take_one_place<C>(
    view: PolkadotView<C>,
    id: Seq<u8>,
    request: OngoingRequest,
)
    requires
        view.wf(),
        knows(view.peers, id),
    ensures
        ({
            let i = position(view.peers, id);
            let before = view.peers[i].connections;
            let j = chosen_connection(before);
            let sent = Connection { id: before[j].id, ongoing_request: Some(request) };
            let after = with_connection(view.peers, i, j, sent)[i].connections;
            &&& one_ongoing(after)
            &&& 0 <= j < after.len() && after[j] == sent
            &&& forall|k: int|
                0 <= k < after.len() && k != j ==> after[k].ongoing_request is None
            &&& chosen_connection(after) == j
        }),
{
    let i = position(view.peers, id);
    assert(is_peer(view.peers, id, i));
    let before = view.peers[i].connections;
    let j = chosen_connection(before);
    let sent = Connection { id: before[j].id, ongoing_request: Some(request) };
    lemma_chosen_keeps_one(before, sent);
    let after = before.update(j, sent);
    if exists|k: int| first_ongoing(before, k) {
        assert(first_ongoing(before, j));
    }
    assert(first_ongoing(after, j));
    let first = choose|k: int| first_ongoing(after, k);
    assert(first == j);
}

/// A request that is not answered is overdue once the time limit after it was
/// sent has passed, and not before.
pub proof fn requests_time_out<C>(id: C, request: BlockRequest, sent: Instant, now: Instant)
    requires
        sent.nanos + 40 * 1_000_000_000 <= u128::MAX,
    ensures
        ({
            let ongoing = OngoingRequest {
                emitted: sent,
                request,
                timeout: later(sent, secs(REQUEST_TIMEOUT_SECS as nat)),
            };
            overdue(Connection { id, ongoing_request: Some(ongoing) }, now) <==> now.nanos
                >= sent.nanos + 40 * 1_000_000_000
        }),
{
}

/// A request that was given up is not overdue again, and giving it up touches no
/// other connection.
pub proof fn timeouts_are_told_once<C>(peers: Seq<PeerView<C>>, now: Instant, i: int, j: int)
    requires
        first_overdue(peers, now, i, j),
    ensures
        forall|time: Instant| !overdue(given_up(peers, i, j)[i].connections[j], time),
        given_up(peers, i, j).len() == peers.len(),
        forall|h: int, k: int|
            0 <= h < peers.len() && 0 <= k < peers[h].connections.len() && !(h == i && k == j)
                ==> #[trigger] given_up(peers, i, j)[h].connections[k] == peers[h].connections[k],
{
}

/// Whichever way the parts of a block were read, its justification is what the message
/// holds, if that is not empty, whatever the flag says; an empty one is there where the flag
/// says so. The receipt and the message queue are there where the message holds a message
/// queue.
pub proof fn parts_are_those_of_the_message(
    message: schema::BlockDataView,
    hash: Seq<u8>,
    header: Option<HeaderView>,
    body: Option<Seq<Seq<u8>>>,
    block: ReceivedBlock,
)
    requires
        block == assembled(message, hash, header, body),
    ensures
        block.hash == hash,
        block.header == header,
        block.body == body,
        message.justification.len() > 0 ==> block.justification == Some(message.justification),
        message.justification.len() == 0 && message.is_empty_justification
            ==> block.justification == Some(Seq::<u8>::empty()),
        message.justification.len() == 0 && !message.is_empty_justification
            ==> block.justification is None,
        message.message_queue.len() > 0 ==> block.message_queue == Some(message.message_queue)
            && block.receipt == Some(message.receipt),
        message.message_queue.len() == 0 ==> block.message_queue is None && block.receipt is None,
{
}

/// A block that was received holds what its message holds: the first 32 bytes of the hash,
/// the header that the bytes of one begin with, an extrinsic for each item of the body where
/// bodies were asked for, and the justification whenever it is not empty.
pub proof fn received_blocks_hold_what_was_sent(
    fields: u8,
    message: schema::BlockDataView,
    block: ReceivedBlock,
)
    requires
        received_block(fields, message) == Some(block),
    ensures
        message.hash.len() >= 32,
        block.hash == message.hash.take(32),
        message.header.len() == 0 <==> block.header is None,
        block.header matches Some(header) ==> header_of(message.header) == Some(
            (header.encoded, header.number),
        ),
        block.body is Some <==> fields & 2u8 == 2u8,
        block.body matches Some(body) ==> body.len() == message.body.len() && forall|i: int|
            0 <= i < body.len() ==> bytes_at(message.body[i], #[trigger] body[i]),
        message.justification.len() > 0 ==> block.justification == Some(message.justification),
        message.justification.len() == 0 ==> block.justification == if message.is_empty_justification {
            Some(Seq::<u8>::empty())
        } else {
            None
        },
        message.message_queue.len() > 0 ==> block.message_queue == Some(message.message_queue)
            && block.receipt == Some(message.receipt),
        message.message_queue.len() == 0 ==> block.message_queue is None && block.receipt is None,
{
    if let Some(body) = block.body {
        assert forall|i: int| 0 <= i < body.len() implies bytes_at(
            message.body[i],
            #[trigger] body[i],
        ) by {
            assert(bytes_of(message.body[i]) is Some);
        }
    }
}

/// A block is received exactly where its message has 32 bytes of hash, no header or one that
/// can be read, and, where bodies were asked for, only extrinsics that can be read. The
/// blocks of a response are received one for one and in order, or none of them is.
pub proof fn readable_blocks_are_received(
    fields: u8,
    message: schema::BlockDataView,
    messages: Seq<schema::BlockDataView>,
)
    ensures
        received_block(fields, message) is Some <==> {
            &&& message.hash.len() >= 32
            &&& message.header.len() == 0 || header_of(message.header) is Some
            &&& fields & 2u8 == 2u8 ==> forall|i: int|
                0 <= i < message.body.len() ==> bytes_of(#[trigger] message.body[i]) is Some
        },
        received_blocks(fields, messages) matches Some(blocks) ==> blocks.len() == messages.len()
            && forall|i: int|
            0 <= i < blocks.len() ==> received_block(fields, messages[i]) == Some(
                #[trigger] blocks[i],
            ),
        received_blocks(fields, messages) is None <==> exists|i: int|
            0 <= i < messages.len() && received_block(fields, #[trigger] messages[i]) is None,
{
}

/// A request of a peer is answered exactly where it says where its range starts, by a hash
/// of at least 32 bytes or a number of at least four.
pub proof fn requests_with_a_start_are_answered(request: schema::BlockRequestView)
    ensures
        request.from_block is None <==> request_error(request) == Some(
            RequestError::MissingFromBlock,
        ),
        request_error(request) is None <==> match request.from_block {
            Some(schema::FromBlockView::Hash(bytes)) => bytes.len() >= 32,
            Some(schema::FromBlockView::Number(bytes)) => bytes.len() >= 4,
            None => false,
        },
        request_error(request) matches Some(e) ==> request.from_block is Some ==> e
            == RequestError::Codec(CodecError::Malformed),
{
}

/// A request goes out on the first connection that waits for an answer, and on the oldest
/// one where none does.
pub proof fn waiting_connections_come_first<C>(connections: Seq<Connection<C>>, k: int)
    requires
        connections.len() > 0,
    ensures
        ({
            let j = chosen_connection(connections);
            &&& 0 <= j < connections.len()
            &&& 0 <= k < connections.len() && connections[k].ongoing_request is Some ==> j <= k
                && connections[j].ongoing_request is Some
            &&& (forall|i: int|
                0 <= i < connections.len() ==> (#[trigger] connections[i]).ongoing_request is None)
                ==> j == 0
        }),
{
    if 0 <= k < connections.len() && connections[k].ongoing_request is Some {
        lemma_first_ongoing_exists(connections, k);
        let j = chosen_connection(connections);
        assert(first_ongoing(connections, j));
    }
    if exists|j: int| first_ongoing(connections, j) {
        let j = chosen_connection(connections);
        assert(first_ongoing(connections, j));
    }
}

/// Changing one connection of one peer leaves that peer's other connections and all other
/// peers as they were.
pub proof fn other_connections_stay<C>(
    peers: Seq<PeerView<C>>,
    i: int,
    j: int,
    connection: Connection<C>,
    h: int,
    k: int,
)
    requires
        0 <= i < peers.len(),
        0 <= j < peers[i].connections.len(),
    ensures
        ({
            let after = with_connection(peers, i, j, connection);
            &&& after.len() == peers.len()
            &&& after[i].connections[j] == connection
            &&& after[i].connections.len() == peers[i].connections.len()
            &&& 0 <= h < peers.len() ==> after[h].id == peers[h].id
            &&& 0 <= h < peers.len() && h != i ==> after[h] == peers[h]
            &&& 0 <= k < peers[i].connections.len() && k != j ==> after[i].connections[k]
                == peers[i].connections[k]
        }),
{
}

/// The request that is given up has reached its time limit, and no request on an earlier
/// connection has. It is taken off its connection, which stays, as do all other requests.
pub proof fn the_first_overdue_request_is_given_up<C>(
    peers: Seq<PeerView<C>>,
    now: Instant,
    i: int,
    j: int,
    h: int,
    k: int,
)
    requires
        first_overdue(peers, now, i, j),
        0 <= h < peers.len(),
        0 <= k < peers[h].connections.len(),
    ensures
        0 <= i < peers.len() && 0 <= j < peers[i].connections.len(),
        peers[i].connections[j].ongoing_request matches Some(ongoing) && ongoing.timeout.nanos
            <= now.nanos,
        h < i || (h == i && k < j) ==> (peers[h].connections[k].ongoing_request matches Some(
            ongoing,
        ) ==> now.nanos < ongoing.timeout.nanos),
        given_up(peers, i, j)[i].connections[j].ongoing_request is None,
        given_up(peers, i, j)[i].connections[j].id == peers[i].connections[j].id,
        !(h == i && k == j) ==> given_up(peers, i, j)[h].connections[k]
            == peers[h].connections[k],
        given_up(peers, i, j)[h].id == peers[h].id,
        !none_overdue(peers, now),
{
    assert(overdue(peers[i].connections[j], now));
    if h < i {
        assert(!overdue(peers[h].connections[k], now));
    }
    if h == i && k < j {
        assert(!overdue(peers[i].connections[k], now));
    }
}

/// Where nothing is overdue, every request that is not answered has its time limit ahead.
pub proof fn limits_lie_ahead<C>(peers: Seq<PeerView<C>>, now: Instant)
    ensures
        none_overdue(peers, now) <==> forall|h: int, k: int|
            0 <= h < peers.len() && 0 <= k < peers[h].connections.len() ==> ((
            #[trigger] peers[h].connections[k]).ongoing_request matches Some(ongoing) ==> now.nanos
                < ongoing.timeout.nanos),
{
    if none_overdue(peers, now) {
        assert forall|h: int, k: int|
            0 <= h < peers.len() && 0 <= k < peers[h].connections.len() implies ((
        #[trigger] peers[h].connections[k]).ongoing_request matches Some(ongoing) ==> now.nanos
            < ongoing.timeout.nanos) by {
            assert(!overdue(peers[h].connections[k], now));
        }
    }
}

/// A peer stands where it is found, and one that is not known stands nowhere.
pub proof fn peers_stand_where_they_are_found<C>(peers: Seq<PeerView<C>>, id: Seq<u8>, i: int)
    ensures
        knows(peers, id) ==> 0 <= position(peers, id) < peers.len() && peers[position(
            peers,
            id,
        )].id == id,
        0 <= i < peers.len() && peers[i].id == id ==> knows(peers, id),
{
    if 0 <= i < peers.len() && peers[i].id == id {
        assert(is_peer(peers, id, i));
    }
    if knows(peers, id) {
        assert(is_peer(peers, id, position(peers, id)));
    }
}

/// The node that is told that a request was not answered learns which request that was, of
/// which peer, and how long ago it was sent.
pub proof fn timeouts_name_the_request<C>(
    step: PolkadotStep<C>,
    peer: PeerView<C>,
    j: int,
    now: Instant,
)
    requires
        tells_timeout(step, peer, j, now),
    ensures
        peer.connections[j].ongoing_request is Some,
        ({
            let ongoing = peer.connections[j].ongoing_request->0;
            step matches PolkadotStep::Ready(
                PolkadotAction::GenerateEvent(
                    ioEvent::RequestTimeout { peer: id, original_request, request_duration },
                ),
            ) && id@ == peer.id && original_request == ongoing.request && (now.nanos
                >= ongoing.emitted.nanos ==> request_duration.nanos == now.nanos
                - ongoing.emitted.nanos)
        }),
{
}

/// The node that is told of a response learns of whom it is, which request it answers, and
/// the blocks in it, in order.
pub proof fn responses_name_the_request<C>(
    action: PolkadotAction<C>,
    from: Seq<u8>,
    request: BlockRequest,
    blocks: Seq<ReceivedBlock>,
)
    requires
        tells_response(action, from, request, blocks),
    ensures
        action matches PolkadotAction::GenerateEvent(
            ioEvent::Response { peer, original_request, response },
        ) && peer@ == from && original_request == request && response.id == request.id
            && response.blocks@.len() == blocks.len() && forall|i: int|
            0 <= i < blocks.len() ==> (#[trigger] response.blocks@[i])@ == blocks[i],
{
    if let PolkadotAction::GenerateEvent(ioEvent::Response { peer, original_request, response })
        = action {
        assert forall|i: int| 0 <= i < blocks.len() implies (#[trigger] response.blocks@[i])@
            == blocks[i] by {
            assert(received_views(response.blocks@)[i] == blocks[i]);
        }
    }
}

/// No two places belong to the same peer, every peer that is kept has a connection, and of
/// its connections no two wait for an answer.
pub proof fn peers_wait_for_one_answer<C>(view: PolkadotView<C>, i: int, other: int, j: int, k: int)
    requires
        view.wf(),
        0 <= i < view.peers.len(),
        0 <= other < view.peers.len(),
        0 <= j < view.peers[i].connections.len(),
        0 <= k < view.peers[i].connections.len(),
    ensures
        view.peers[i].id == view.peers[other].id ==> i == other,
        view.peers[i].connections.len() > 0,
        view.peers[i].connections[j].ongoing_request is Some
            && view.peers[i].connections[k].ongoing_request is Some ==> j == k,
{
    assert(one_ongoing(view.peers[i].connections));
}

} // verus!
