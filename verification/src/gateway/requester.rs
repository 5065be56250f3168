//! The requests for the blocks that a peer announces.
use crate::behaviour::polkadot::request_error;
use crate::block::{blake_two_256, BlockAnnounce};
use crate::gateway::substream::{protocol_name, read_protocol_name};
use crate::octets::{append_bytes, ascii, ascii_bytes};
use crate::protocol::net_protocol::{
    attributes_word, protobuf_request, BlockHash, Direction, FromBlock,
};
use crate::scale::encode_hash;
use crate::schema;
use crate::schema::{
    bytes_or_nothing, from_block_field, number_or_nothing, request_bytes, request_of,
    request_round_trip, BlockRequestView, FromBlockView,
};
use crate::wire::{sign_extended, varint};
use vstd::prelude::*;
use vstd::utf8::valid_utf8;

verus! {

/// How many bytes of the answer to the opening messages are read at most.
pub const HANDSHAKE_BUFFER_SIZE: usize = 1000;

/// How many bytes the answer to the opening messages has.
pub const HANDSHAKE_SIZE: usize = 33;

/// The message for a request for one block with all its parts.
pub open spec fn announced_request(hash: Seq<u8>) -> BlockRequestView {
    BlockRequestView {
        fields: attributes_word(31),
        from_block: Some(FromBlockView::Hash(hash)),
        to_block: hash,
        direction: 0,
        max_blocks: 1,
    }
}

/// The message for a request for the block of an announcement.
pub fn request_for(announce: &BlockAnnounce) -> (request: schema::BlockRequest)
    ensures
        request@ == announced_request(blake_two_256(announce.header@.encoded)),
        request.fields == 0x1f00_0000,
        request.from_block matches Some(schema::FromBlock::Hash(from)) && from@ == blake_two_256(
            announce.header@.encoded,
        ),
        request.to_block@ == blake_two_256(announce.header@.encoded),
        request.direction == 0,
        request.max_blocks == 1,
{
    request_for_hash(&announce.header.hash())
}

/// The message for a request for the block with a hash.
pub fn request_for_hash(hash: &BlockHash) -> (request: schema::BlockRequest)
    ensures
        request@ == announced_request(hash@),
        request.fields == 0x1f00_0000,
        request.from_block matches Some(schema::FromBlock::Hash(from)) && from@ == hash@,
        request.to_block@ == hash@,
        request.direction == 0,
        request.max_blocks == 1,
{
    let request = schema::BlockRequest {
        fields: 31 * 0x100_0000,
        from_block: Some(schema::FromBlock::Hash(encode_hash(hash))),
        to_block: encode_hash(hash),
        direction: 0,
        max_blocks: 1,
    };
    assert(request@ =~= announced_request(hash@));
    request
}

/// The encoding of a request for one block has 76 bytes, so that a single byte can say
/// how long it is.
pub proof fn requests_are_short(hash: Seq<u8>)
    requires
        hash.len() == 32,
    ensures
        request_bytes(announced_request(hash)).len() == 76,
{
    reveal_with_fuel(varint, 6);
    let m = announced_request(hash);
    assert(number_or_nothing(1, m.fields as nat).len() == 6);
    assert(from_block_field(m.from_block).len() == 34);
    assert(bytes_or_nothing(4, m.to_block).len() == 34);
    assert(number_or_nothing(5, sign_extended(m.direction)).len() == 0);
    assert(number_or_nothing(6, m.max_blocks as nat).len() == 2);
}

/// A peer that reads such a request sees what is asked for: the one block with that
/// hash.
pub proof fn announced_requests_are_read(hash: Seq<u8>)
    requires
        hash.len() == 32,
    ensures
        request_of(request_bytes(announced_request(hash))) == Some(announced_request(hash)),
{
    request_round_trip(announced_request(hash));
}

/// The request for an announced block is the one for all the parts of the blocks from
/// that hash to that hash, upwards, and one at most; it is answered.
pub proof fn announced_requests_are_ordinary(hash: BlockHash)
    ensures
        announced_request(hash@) == protobuf_request(
            31,
            FromBlock::Hash(hash),
            Some(hash),
            Direction::Ascending,
            Some(1),
        ),
        request_error(announced_request(hash@)) is None,
{
}

/// How far the request for a block has got.
#[derive(Debug)]
pub enum RequesterState {
    /// A substream is being opened.
    Opening,
    /// The greeting is being written.
    Greeting,
    /// The name of the protocol is being written.
    Naming,
    /// The answer to both is awaited.
    Shaking,
    /// A block is to be announced.
    Waiting,
    /// The length of the request is being written.
    Asking(Vec<u8>),
    /// The request, which has so many bytes, is being written.
    Sending(usize),
    /// The answer to the request is awaited.
    Reading,
}

/// What such a state stands for.
pub enum RequesterView {
    Opening,
    Greeting,
    Naming,
    Shaking,
    Waiting,
    Asking(Seq<u8>),
    Sending(nat),
    Reading,
}

impl View for RequesterState {
    type V = RequesterView;

    open spec fn view(&self) -> RequesterView {
        match *self {
            RequesterState::Opening => RequesterView::Opening,
            RequesterState::Greeting => RequesterView::Greeting,
            RequesterState::Naming => RequesterView::Naming,
            RequesterState::Shaking => RequesterView::Shaking,
            RequesterState::Waiting => RequesterView::Waiting,
            RequesterState::Asking(request) => RequesterView::Asking(request@),
            RequesterState::Sending(size) => RequesterView::Sending(size as nat),
            RequesterState::Reading => RequesterView::Reading,
        }
    }
}

/// What happened to the request for a block.
#[derive(Debug)]
pub enum RequesterEvent {
    /// The substream was opened.
    Opened,
    /// What was to be written was.
    Written,
    /// Bytes were read.
    Read(Vec<u8>),
    /// A block was announced.
    Announced(BlockAnnounce),
}

/// What is to be done for the request for a block.
#[derive(Debug)]
pub enum RequesterAction {
    /// Open a substream, in the place of an earlier one.
    Open,
    Write(Vec<u8>),
    /// Read so many bytes at most.
    Read(usize),
    /// Wait for a block to be announced.
    Receive,
}

/// What an action stands for.
pub enum RequesterActionView {
    Open,
    Write(Seq<u8>),
    Read(nat),
    Receive,
}

impl View for RequesterAction {
    type V = RequesterActionView;

    open spec fn view(&self) -> RequesterActionView {
        match *self {
            RequesterAction::Open => RequesterActionView::Open,
            RequesterAction::Write(bytes) => RequesterActionView::Write(bytes@),
            RequesterAction::Read(size) => RequesterActionView::Read(size as nat),
            RequesterAction::Receive => RequesterActionView::Receive,
        }
    }
}

/// The greeting that opens a substream.
pub open spec fn greeting() -> Seq<u8> {
    ascii("\x13/multistream/1.0.0\n"@)
}

/// The message that names the protocol for requests.
pub open spec fn naming() -> Seq<u8> {
    ascii("\x0c/dot/sync/2\n"@)
}

/// The buffer for the answer to the opening messages: what was read, and zeros.
pub open spec fn handshake_buffer(data: Seq<u8>) -> Seq<u8> {
    data + Seq::new((HANDSHAKE_BUFFER_SIZE - data.len()) as nat, |i: int| 0u8)
}

/// Whether an answer to the opening messages is one: it has the right size, and names a
/// protocol.
pub open spec fn is_handshake(data: Seq<u8>) -> bool {
    data.len() == HANDSHAKE_SIZE && protocol_name(handshake_buffer(data)) is Some
}

/// Whether an event is one that a state waits for.
pub open spec fn requester_expects(state: RequesterView, event: RequesterEvent) -> bool {
    match state {
        RequesterView::Opening => event is Opened,
        RequesterView::Greeting | RequesterView::Naming => event is Written,
        RequesterView::Shaking => event matches RequesterEvent::Read(data) && is_handshake(data@),
        RequesterView::Waiting => event is Announced,
        RequesterView::Asking(_) | RequesterView::Sending(_) => event is Written,
        RequesterView::Reading => event is Read,
    }
}

/// What is done on an event, and in which state that leaves the request. After the
/// answer a new substream is opened for the next block.
pub open spec fn requester_step(state: RequesterView, event: RequesterEvent) -> (
    RequesterView,
    RequesterActionView,
) {
    match (state, event) {
        (RequesterView::Opening, _) => (
            RequesterView::Greeting,
            RequesterActionView::Write(greeting()),
        ),
        (RequesterView::Greeting, _) => (
            RequesterView::Naming,
            RequesterActionView::Write(naming()),
        ),
        (RequesterView::Naming, _) => (
            RequesterView::Shaking,
            RequesterActionView::Read(HANDSHAKE_BUFFER_SIZE as nat),
        ),
        (RequesterView::Shaking, _) => (RequesterView::Waiting, RequesterActionView::Receive),
        (RequesterView::Waiting, RequesterEvent::Announced(announce)) => {
            let request = request_bytes(
                announced_request(blake_two_256(announce.header@.encoded)),
            );
            (
                RequesterView::Asking(request),
                RequesterActionView::Write(seq![request.len() as u8]),
            )
        },
        (RequesterView::Asking(request), _) => (
            RequesterView::Sending(request.len()),
            RequesterActionView::Write(request),
        ),
        (RequesterView::Sending(size), _) => (
            RequesterView::Reading,
            RequesterActionView::Read(size),
        ),
        _ => (RequesterView::Opening, RequesterActionView::Open),
    }
}

/// The requests for the blocks that a peer announces.
#[derive(Debug)]
pub struct Requester {
    state: RequesterState,
}

impl View for Requester {
    type V = RequesterView;

    closed spec fn view(&self) -> RequesterView {
        self.state@
    }
}

/// Whether an answer to the opening messages is one.
fn check_handshake(data: &Vec<u8>) -> (r: bool)
    ensures
        r == is_handshake(data@),
{
    if data.len() != HANDSHAKE_SIZE {
        return false;
    }
    let mut buf: Vec<u8> = Vec::new();
    append_bytes(&mut buf, data.as_slice());
    let missing: usize = HANDSHAKE_BUFFER_SIZE - HANDSHAKE_SIZE;
    let padding: Vec<u8> = vec![0; missing];
    append_bytes(&mut buf, padding.as_slice());
    assert(buf@ =~= handshake_buffer(data@));
    read_protocol_name(buf.as_slice()).is_some()
}

impl Requester {
    /// A request for which a substream is first to be opened.
    pub fn new() -> (requester: Requester)
        ensures
            requester@ == RequesterView::Opening,
    {
        Requester { state: RequesterState::Opening }
    }

    /// What is to be done first.
    pub fn start(&self) -> (action: RequesterAction)
        ensures
            action@ == RequesterActionView::Open,
    {
        RequesterAction::Open
    }

    /// Whether the request waits for such an event.
    pub fn expects(&self, event: &RequesterEvent) -> (r: bool)
        ensures
            r == requester_expects(self@, *event),
            *event is Opened ==> r == (self@ is Opening),
            *event is Written ==> r == (self@ is Greeting || self@ is Naming || self@ is Asking
                || self@ is Sending),
            *event is Announced ==> r == (self@ is Waiting),
            *event matches RequesterEvent::Read(data) ==> (self@ is Reading ==> r) && (
            self@ is Shaking && data@.len() != 33 ==> !r) && (!(self@ is Reading)
                && !(self@ is Shaking) ==> !r),
    {
        match (&self.state, event) {
            (RequesterState::Opening, RequesterEvent::Opened) => true,
            (RequesterState::Greeting, RequesterEvent::Written) => true,
            (RequesterState::Naming, RequesterEvent::Written) => true,
            (RequesterState::Shaking, RequesterEvent::Read(data)) => check_handshake(data),
            (RequesterState::Waiting, RequesterEvent::Announced(_)) => true,
            (RequesterState::Asking(_), RequesterEvent::Written) => true,
            (RequesterState::Sending(_), RequesterEvent::Written) => true,
            (RequesterState::Reading, RequesterEvent::Read(_)) => true,
            _ => false,
        }
    }

    /// What is to be done once something happened.
    pub fn step(&mut self, event: RequesterEvent) -> (action: RequesterAction)
        requires
            requester_expects(old(self)@, event),
        ensures
            (final(self)@, action@) == requester_step(old(self)@, event),
            old(self)@ is Opening ==> final(self)@ is Greeting && action is Write,
            old(self)@ is Greeting ==> final(self)@ is Naming && action is Write,
            old(self)@ is Naming ==> final(self)@ is Shaking && (
            action matches RequesterAction::Read(size) && size == 1000),
            old(self)@ is Shaking ==> final(self)@ is Waiting && action is Receive,
            old(self)@ is Waiting ==> (final(self)@ matches RequesterView::Asking(request) && (
            action matches RequesterAction::Write(length) && length@ == seq![request.len() as u8])),
            old(self)@ matches RequesterView::Asking(request) ==> final(self)@
                == RequesterView::Sending(request.len()) && (
            action matches RequesterAction::Write(bytes) && bytes@ == request),
            old(self)@ matches RequesterView::Sending(size) ==> final(self)@ is Reading && (
            action matches RequesterAction::Read(most) && most == size),
            old(self)@ is Reading ==> final(self)@ is Opening && action is Open,
    {
        proof {
            reveal_strlit("\x13/multistream/1.0.0\n");
            reveal_strlit("\x0c/dot/sync/2\n");
        }
        let mut state = RequesterState::Opening;
        std::mem::swap(&mut self.state, &mut state);
        match (state, event) {
            (RequesterState::Opening, _) => {
                self.state = RequesterState::Greeting;
                RequesterAction::Write(ascii_bytes("\x13/multistream/1.0.0\n"))
            },
            (RequesterState::Greeting, _) => {
                self.state = RequesterState::Naming;
                RequesterAction::Write(ascii_bytes("\x0c/dot/sync/2\n"))
            },
            (RequesterState::Naming, _) => {
                self.state = RequesterState::Shaking;
                RequesterAction::Read(HANDSHAKE_BUFFER_SIZE)
            },
            (RequesterState::Shaking, _) => {
                self.state = RequesterState::Waiting;
                RequesterAction::Receive
            },
            (RequesterState::Waiting, RequesterEvent::Announced(announce)) => {
                let request = request_for(&announce).encode();
                let hash = announce.header.hash();
                proof {
                    requests_are_short(hash@);
                }
                let mut length: Vec<u8> = Vec::new();
                length.push(request.len() as u8);
                assert(length@ =~= seq![request@.len() as u8]);
                self.state = RequesterState::Asking(request);
                RequesterAction::Write(length)
            },
            (RequesterState::Asking(request), _) => {
                self.state = RequesterState::Sending(request.len());
                RequesterAction::Write(request)
            },
            (RequesterState::Sending(size), _) => {
                self.state = RequesterState::Reading;
                RequesterAction::Read(size)
            },
            _ => RequesterAction::Open,
        }
    }
}

/// Once a block is announced, the length of the request for it is written, then the
/// request, and as many bytes of the answer are read. The length is the true one, as the
/// hash of a block has 32 bytes.
pub proof fn announced_blocks_are_requested(announce: BlockAnnounce)
    ensures
        ({
            let request = request_bytes(
                announced_request(blake_two_256(announce.header@.encoded)),
            );
            let (a, first) = requester_step(
                RequesterView::Waiting,
                RequesterEvent::Announced(announce),
            );
            let (b, second) = requester_step(a, RequesterEvent::Written);
            let (c, third) = requester_step(b, RequesterEvent::Written);
            &&& first == RequesterActionView::Write(seq![request.len() as u8])
            &&& blake_two_256(announce.header@.encoded).len() == 32 ==> request.len() as u8
                == request.len()
            &&& second == RequesterActionView::Write(request)
            &&& third == RequesterActionView::Read(request.len())
            &&& c is Reading
        }),
{
    if blake_two_256(announce.header@.encoded).len() == 32 {
        requests_are_short(blake_two_256(announce.header@.encoded));
    }
}

/// The request for an announced block is for all five parts of that block, which have the
/// five lowest bits of the highest byte, from its hash to its hash, upwards, and for one block.
pub proof fn announced_requests_name_the_block(hash: Seq<u8>)
    ensures
        ({
            let request = announced_request(hash);
            &&& request.fields == 0x1f00_0000
            &&& request.from_block == Some(FromBlockView::Hash(hash))
            &&& request.to_block == hash
            &&& request.direction == 0
            &&& request.max_blocks == 1
        }),
{
}

/// The greeting and the message that names the protocol start with the number of the bytes
/// that follow, and end in a newline.
pub proof fn opening_messages_say_their_length()
    ensures
        greeting().len() == 20,
        greeting()[0] == 19,
        greeting().last() == 10,
        greeting().subrange(1, 19) == ascii("/multistream/1.0.0"@),
        naming().len() == 13,
        naming()[0] == 12,
        naming().last() == 10,
        naming().subrange(1, 12) == ascii("/dot/sync/2"@),
{
    reveal_strlit("\x13/multistream/1.0.0\n");
    reveal_strlit("\x0c/dot/sync/2\n");
    reveal_strlit("/multistream/1.0.0");
    reveal_strlit("/dot/sync/2");
    assert(greeting().subrange(1, 19) =~= ascii("/multistream/1.0.0"@));
    assert(naming().subrange(1, 12) =~= ascii("/dot/sync/2"@));
}

/// The answer to the opening messages has as many bytes as both of them. An answer that
/// repeats them is one, if the name is a text, and one of any other length never is.
pub proof fn answers_repeat_the_opening_messages(data: Seq<u8>)
    ensures
        data.len() != 33 ==> !is_handshake(data),
        data.len() == 33 && (data[20] == 0 || !valid_utf8(
            (data + Seq::new(967, |i: int| 0u8)).subrange(21, 20 + data[20]),
        )) ==> !is_handshake(data),
        data.len() == 33 && data[20] > 0 && valid_utf8(
            (data + Seq::new(967, |i: int| 0u8)).subrange(21, 20 + data[20]),
        ) ==> is_handshake(data),
        valid_utf8(ascii("/dot/sync/2"@)) ==> is_handshake(greeting() + naming()),
{
    opening_messages_say_their_length();
    reveal_strlit("/dot/sync/2");
    if data.len() == 33 {
        assert(handshake_buffer(data) =~= data + Seq::new(967, |i: int| 0u8));
    }
    let both = greeting() + naming();
    assert(both[20] == 12);
    assert(handshake_buffer(both).subrange(21, 32) =~= naming().subrange(1, 12));
}

/// A request runs from one substream to the next: the greeting is written, then the name of
/// the protocol; the answer is read into 1000 bytes; a block is waited for; the length of the
/// request for it is written, then the request; as many bytes of the answer are read; and
/// another substream is opened.
pub proof fn requests_go_round(
    handshake: Vec<u8>,
    announce: BlockAnnounce,
    answer: Vec<u8>,
)
    requires
        is_handshake(handshake@),
    ensures
        ({
            let request = request_bytes(
                announced_request(blake_two_256(announce.header@.encoded)),
            );
            let (s1, a1) = requester_step(RequesterView::Opening, RequesterEvent::Opened);
            let (s2, a2) = requester_step(s1, RequesterEvent::Written);
            let (s3, a3) = requester_step(s2, RequesterEvent::Written);
            let (s4, a4) = requester_step(s3, RequesterEvent::Read(handshake));
            let (s5, a5) = requester_step(s4, RequesterEvent::Announced(announce));
            let (s6, a6) = requester_step(s5, RequesterEvent::Written);
            let (s7, a7) = requester_step(s6, RequesterEvent::Written);
            let (s8, a8) = requester_step(s7, RequesterEvent::Read(answer));
            &&& requester_expects(RequesterView::Opening, RequesterEvent::Opened)
            &&& requester_expects(s1, RequesterEvent::Written)
            &&& requester_expects(s2, RequesterEvent::Written)
            &&& requester_expects(s3, RequesterEvent::Read(handshake))
            &&& requester_expects(s4, RequesterEvent::Announced(announce))
            &&& requester_expects(s5, RequesterEvent::Written)
            &&& requester_expects(s6, RequesterEvent::Written)
            &&& requester_expects(s7, RequesterEvent::Read(answer))
            &&& a1 == RequesterActionView::Write(ascii("\x13/multistream/1.0.0\n"@))
            &&& a2 == RequesterActionView::Write(ascii("\x0c/dot/sync/2\n"@))
            &&& a3 == RequesterActionView::Read(1000)
            &&& a4 is Receive
            &&& a5 == RequesterActionView::Write(seq![request.len() as u8])
            &&& a6 == RequesterActionView::Write(request)
            &&& a7 == RequesterActionView::Read(request.len())
            &&& a8 is Open
            &&& s8 is Opening
        }),
{
}

/// Each state waits for one kind of event, and for no other.
pub proof fn requests_wait_for_their_event(state: RequesterView, event: RequesterEvent)
    requires
        requester_expects(state, event),
    ensures
        event is Opened <==> state is Opening,
        event is Written <==> state is Greeting || state is Naming || state is Asking
            || state is Sending,
        event is Announced <==> state is Waiting,
        event is Read <==> state is Shaking || state is Reading,
{
}

/// What is done for a request is what the action says.
pub proof fn requester_actions_stand_for_themselves(bytes: Vec<u8>, size: usize)
    ensures
        RequesterAction::Open@ is Open,
        RequesterAction::Receive@ is Receive,
        RequesterAction::Write(bytes)@ == RequesterActionView::Write(bytes@),
        RequesterAction::Read(size)@ == RequesterActionView::Read(size as nat),
        RequesterState::Asking(bytes)@ == RequesterView::Asking(bytes@),
        RequesterState::Sending(size)@ == RequesterView::Sending(size as nat),
{
}

} // verus!
