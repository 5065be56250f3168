//! The block sync protocol: what is asked for, what is answered, and how the two
//! sides name the protocol.
use crate::block::{Header, HeaderView};
use crate::octets::{ascii, ascii_bytes, views};
use crate::scale::{
    encode_hash, encode_number, hash_of, le_32, lemma_number_round_trip, number_of, CodecError,
};
use crate::schema;
use crate::schema::{request_of, response_of};
use crate::time::Instant;
use crate::wire::Malformed;
use std::marker::PhantomData;
use vstd::prelude::*;
use vstd::slice::slice_subrange;

verus! {

/// How many bytes a request may have at most.
pub const MAX_REQUEST_SIZE: usize = 1024 * 1024;

/// How many bytes a response may have at most.
pub const MAX_RESPONSE_SIZE: usize = 16 * 1024 * 1024;

/// Asks for the header of a block.
pub const HEADER: u8 = 0b00000001;

/// Asks for the body of a block.
pub const BODY: u8 = 0b00000010;

/// Asks for the receipt of a block.
pub const RECEIPT: u8 = 0b00000100;

/// Asks for the message queue of a block.
pub const MESSAGE_QUEUE: u8 = 0b00001000;

/// Asks for the justification of a block.
pub const JUSTIFICATION: u8 = 0b00010000;

/// A set of parts of a block.
#[derive(Debug, Clone, Copy, PartialEq, Eq, Structural)]
pub struct BlockAttributes {
    bits: u8,
}

/// Whether every bit of a byte stands for a part of a block.
pub open spec fn known_bits(bits: u8) -> bool {
    bits < 32
}

impl View for BlockAttributes {
    type V = u8;

    closed spec fn view(&self) -> u8 {
        self.bits
    }
}

/// The word that carries a set of parts: its most significant byte.
pub open spec fn attributes_word(bits: u8) -> u32 {
    (bits * 0x100_0000) as u32
}

/// The set of parts in a word.
pub open spec fn word_attributes(word: u32) -> Result<u8, CodecError> {
    let bits = (word / 0x100_0000) as u8;
    if known_bits(bits) {
        Ok(bits)
    } else {
        Err(CodecError::InvalidBlockAttributes)
    }
}

/// The set of parts in the first byte of `b`.
pub open spec fn attributes_of(b: Seq<u8>) -> Result<u8, CodecError> {
    if b.len() == 0 {
        Err(CodecError::Malformed)
    } else if known_bits(b[0]) {
        Ok(b[0])
    } else {
        Err(CodecError::InvalidBytes)
    }
}

impl BlockAttributes {
    #[verifier::type_invariant]
    spec fn inv(self) -> bool {
        known_bits(self.bits)
    }

    /// The parts that the bits of a byte stand for; none where one of them stands
    /// for no part.
    pub fn from_bits(bits: u8) -> (r: Option<BlockAttributes>)
        ensures
            r matches Some(attributes) ==> known_bits(bits) && attributes@ == bits,
            r is None ==> !known_bits(bits),
    {
        if bits < 32 {
            Some(BlockAttributes { bits })
        } else {
            None
        }
    }

    /// All the parts of a block.
    pub fn all() -> (r: BlockAttributes)
        ensures
            r@ == 31,
    {
        BlockAttributes { bits: 31 }
    }

    /// The bits that stand for the parts.
    pub fn bits(&self) -> (bits: u8)
        ensures
            bits == self@,
            known_bits(bits),
    {
        proof {
            use_type_invariant(self);
        }
        self.bits
    }

    /// Whether all of the parts that `bits` stands for are in the set.
    pub fn contains(&self, bits: u8) -> (r: bool)
        ensures
            r == (self@ & bits == bits),
    {
        self.bits & bits == bits
    }

    /// The parts that are in either set.
    pub fn union(self, other: BlockAttributes) -> (r: BlockAttributes)
        ensures
            r@ == self@ | other@,
    {
        proof {
            use_type_invariant(self);
            use_type_invariant(other);
        }
        let (a, b) = (self.bits, other.bits);
        assert(a | b < 32) by (bit_vector)
            requires
                a < 32,
                b < 32,
        ;
        BlockAttributes { bits: a | b }
    }

    /// The word that carries the parts in its most significant byte.
    pub fn to_be_u32(&self) -> (word: u32)
        ensures
            word == attributes_word(self@),
    {
        self.bits as u32 * 0x100_0000
    }

    /// The parts that a word carries.
    pub fn from_be_u32(encoded: u32) -> (r: Result<BlockAttributes, CodecError>)
        ensures
            match r {
                Ok(attributes) => word_attributes(encoded) == Ok::<u8, CodecError>(attributes@),
                Err(e) => word_attributes(encoded) == Err::<u8, CodecError>(e),
            },
    {
        match BlockAttributes::from_bits((encoded / 0x100_0000) as u8) {
            Some(attributes) => Ok(attributes),
            None => Err(CodecError::InvalidBlockAttributes),
        }
    }

    /// Appends the byte that stands for the parts.
    pub fn encode_to(&self, dest: &mut Vec<u8>)
        ensures
            final(dest)@ == old(dest)@.push(self@),
    {
        dest.push(self.bits);
    }

    /// Reads the parts from a byte, and gives what is left of the input. A byte
    /// with a bit that stands for no part is taken from the input all the same.
    pub fn decode<'a>(input: &'a [u8]) -> (r: (Result<BlockAttributes, CodecError>, &'a [u8]))
        ensures
            match r.0 {
                Ok(attributes) => attributes_of(input@) == Ok::<u8, CodecError>(attributes@),
                Err(e) => attributes_of(input@) == Err::<u8, CodecError>(e),
            },
            r.1@ == (if input@.len() == 0 {
                input@
            } else {
                input@.skip(1)
            }),
    {
        if input.len() == 0 {
            return (Err(CodecError::Malformed), input);
        }
        let rest = slice_subrange(input, 1, input.len());
        assert(rest@ =~= input@.skip(1));
        match BlockAttributes::from_bits(input[0]) {
            Some(attributes) => (Ok(attributes), rest),
            None => (Err(CodecError::InvalidBytes), rest),
        }
    }
}

/// Reading back what was written gives the same parts, from the word and from
/// the byte, and only the five known bits are ever read.
pub proof fn attributes_round_trip(bits: u8, rest: Seq<u8>)
    requires
        known_bits(bits),
    ensures
        word_attributes(attributes_word(bits)) == Ok::<u8, CodecError>(bits),
        attributes_of(Seq::<u8>::empty().push(bits) + rest) == Ok::<u8, CodecError>(bits),
{
    assert((Seq::<u8>::empty().push(bits) + rest)[0] == bits);
}

/// The hash of a block.
pub type BlockHash = [u8; 32];

/// The number of a block.
pub type BlockNumber = u32;

/// An extrinsic, whose meaning only the chain knows.
pub type Extrinsic = Vec<u8>;

/// Where a range of blocks starts.
#[derive(Debug, Clone, Copy, PartialEq, Eq)]
pub enum FromBlock<Hash, Number> {
    /// At the block with this hash.
    Hash(Hash),
    /// At the block with this number.
    Number(Number),
}

/// Which way a range of blocks runs.
#[derive(Debug, Clone, Copy, PartialEq, Eq, Structural)]
pub enum Direction {
    Ascending,
    Descending,
}

/// A request for a range of blocks.
#[allow(non_camel_case_types)]
#[derive(Debug, Clone, Copy, PartialEq, Eq)]
pub struct gBlockRequest<Hash, Number> {
    /// The identity of the request, which its response carries too.
    pub id: u64,
    /// Which parts of each block are wanted.
    pub fields: BlockAttributes,
    /// Where the range starts.
    pub from: FromBlock<Hash, Number>,
    /// Where the range ends, if that is given.
    pub to: Option<Hash>,
    /// Which way the range runs.
    pub direction: Direction,
    /// How many blocks to send at most, if that is given.
    pub max: Option<u32>,
}

/// What justifies a block.
pub type Justification = Vec<u8>;

/// One block of a response.
#[derive(Debug)]
pub struct BlockData<Header, Hash, Extrinsic> {
    pub hash: Hash,
    pub header: Option<Header>,
    pub body: Option<Vec<Extrinsic>>,
    pub receipt: Option<Vec<u8>>,
    pub message_queue: Option<Vec<u8>>,
    pub justification: Option<Justification>,
}

/// What a block of a response stands for.
#[verifier::ext_equal]
pub struct ReceivedBlock {
    pub hash: Seq<u8>,
    pub header: Option<HeaderView>,
    pub body: Option<Seq<Seq<u8>>>,
    pub receipt: Option<Seq<u8>>,
    pub message_queue: Option<Seq<u8>>,
    pub justification: Option<Seq<u8>>,
}

/// The bytes that are there, if any are.
pub open spec fn optional_bytes(bytes: Option<Vec<u8>>) -> Option<Seq<u8>> {
    match bytes {
        Some(v) => Some(v@),
        None => None,
    }
}

impl View for BlockData<Header, BlockHash, Extrinsic> {
    type V = ReceivedBlock;

    open spec fn view(&self) -> ReceivedBlock {
        ReceivedBlock {
            hash: self.hash@,
            header: match self.header {
                Some(header) => Some(header@),
                None => None,
            },
            body: match self.body {
                Some(body) => Some(views(body@)),
                None => None,
            },
            receipt: optional_bytes(self.receipt),
            message_queue: optional_bytes(self.message_queue),
            justification: optional_bytes(self.justification),
        }
    }
}

/// The blocks that answer the request with the same identity.
#[allow(non_camel_case_types)]
#[derive(Debug)]
pub struct gBlockResponse<Header, Hash, Extrinsic> {
    pub id: u64,
    pub blocks: Vec<BlockData<Header, Hash, Extrinsic>>,
}

/// The blocks of the relay chain that answer a request.
pub type BlockResponse = gBlockResponse<Header, BlockHash, Extrinsic>;

/// A request for blocks of the relay chain.
pub type BlockRequest = gBlockRequest<BlockHash, BlockNumber>;

/// The protocol that the node takes requests under.
#[derive(Debug)]
pub struct PolkadotInProtocol<B> {
    pub marker: PhantomData<B>,
}

impl<B> Clone for PolkadotInProtocol<B> {
    fn clone(&self) -> (copy: PolkadotInProtocol<B>)
        ensures
            copy.marker == PhantomData::<B>,
    {
        PolkadotInProtocol { marker: PhantomData }
    }
}

/// What comes of a substream of the block sync protocol.
#[derive(Debug)]
pub enum PolkadotProtocolEvent<T> {
    /// A request, the socket that wants the answer, and when it was taken up.
    Request(schema::BlockRequest, T, Instant),
    /// A request of ours, and the answer to it.
    Response(BlockRequest, schema::BlockResponse),
}

impl<B> PolkadotInProtocol<B> {
    pub fn new() -> (p: PolkadotInProtocol<B>)
        ensures
            p.marker == PhantomData::<B>,
    {
        PolkadotInProtocol { marker: PhantomData }
    }

    /// The name of the protocol.
    pub fn protocol_info(&self) -> (name: Vec<u8>)
        ensures
            name@ == ascii("/dot/block-announces/1"@),
    {
        proof {
            reveal_strlit("/dot/block-announces/1");
        }
        ascii_bytes("/dot/block-announces/1")
    }

    /// Takes up what was read from a socket: a request, if it is the encoding of
    /// one.
    pub fn upgrade_inbound<T>(self, vec: &[u8], socket: T, handling_start: Instant) -> (r: Result<
        PolkadotProtocolEvent<T>,
        Malformed,
    >)
        ensures
            match r {
                Ok(PolkadotProtocolEvent::Request(request, s, start)) => request_of(vec@) == Some(
                    request@,
                ) && s == socket && start == handling_start,
                Ok(PolkadotProtocolEvent::Response(_, _)) => false,
                Err(_) => request_of(vec@) is None,
            },
    {
        match schema::BlockRequest::decode(vec) {
            Ok(request) => Ok(PolkadotProtocolEvent::Request(request, socket, handling_start)),
            Err(e) => Err(e),
        }
    }
}

/// The protocol that the node sends a request under, with the request.
#[derive(Debug)]
pub struct PolkadotOutProtocol {
    /// The encoding of the request.
    pub block_protobuf_request: Vec<u8>,
    /// The request.
    pub recv_request: BlockRequest,
}

impl PolkadotOutProtocol {
    pub fn new(block_protobuf_request: Vec<u8>, recv_request: BlockRequest) -> (p:
        PolkadotOutProtocol)
        ensures
            p.block_protobuf_request == block_protobuf_request,
            p.recv_request == recv_request,
    {
        PolkadotOutProtocol { block_protobuf_request, recv_request }
    }

    /// The name of the protocol.
    pub fn protocol_info(&self) -> (name: Vec<u8>)
        ensures
            name@ == ascii("/dot/sync/2"@),
    {
        proof {
            reveal_strlit("/dot/sync/2");
        }
        ascii_bytes("/dot/sync/2")
    }

    /// Takes up what was read from a socket that the request was sent on: its
    /// response, if it is the encoding of one.
    pub fn upgrade_outbound<T>(self, vec: &[u8]) -> (r: Result<
        PolkadotProtocolEvent<T>,
        Malformed,
    >)
        ensures
            match r {
                Ok(PolkadotProtocolEvent::Response(request, response)) => request
                    == self.recv_request && response_of(vec@) == Some(response@),
                Ok(PolkadotProtocolEvent::Request(_, _, _)) => false,
                Err(_) => response_of(vec@) is None,
            },
    {
        match schema::BlockResponse::decode(vec) {
            Ok(response) => Ok(PolkadotProtocolEvent::Response(self.recv_request, response)),
            Err(e) => Err(e),
        }
    }
}

/// The bytes in the start of a range.
pub open spec fn start_view(from: FromBlock<Vec<u8>, Vec<u8>>) -> schema::FromBlockView {
    match from {
        FromBlock::Hash(hash) => schema::FromBlockView::Hash(hash@),
        FromBlock::Number(number) => schema::FromBlockView::Number(number@),
    }
}

/// The protobuf message for a request, from the encodings of hashes and numbers: an end
/// that is not given as an empty string, a limit that is not given as zero.
pub open spec fn encoded_request(
    attributes: u8,
    from: schema::FromBlockView,
    to: Option<Seq<u8>>,
    direction: Direction,
    max: Option<u32>,
) -> schema::BlockRequestView {
    schema::BlockRequestView {
        fields: attributes_word(attributes),
        from_block: Some(from),
        to_block: match to {
            Some(hash) => hash,
            None => Seq::empty(),
        },
        direction: match direction {
            Direction::Ascending => 0,
            Direction::Descending => 1,
        },
        max_blocks: match max {
            Some(max) => max,
            None => 0,
        },
    }
}

/// The protobuf message for a request, with hashes and numbers in their encodings.
pub open spec fn protobuf_request(
    attributes: u8,
    from: FromBlock<BlockHash, BlockNumber>,
    to: Option<BlockHash>,
    direction: Direction,
    max: Option<u32>,
) -> schema::BlockRequestView {
    encoded_request(
        attributes,
        match from {
            FromBlock::Hash(hash) => schema::FromBlockView::Hash(hash@),
            FromBlock::Number(number) => schema::FromBlockView::Number(le_32(number as nat)),
        },
        match to {
            Some(hash) => Some(hash@),
            None => None,
        },
        direction,
        max,
    )
}

/// The protobuf message for a request, whose hashes and number come in their encodings.
pub fn build_protobuf_block_request(
    attributes: BlockAttributes,
    from_block: FromBlock<Vec<u8>, Vec<u8>>,
    to_block: Option<Vec<u8>>,
    direction: Direction,
    max_blocks: Option<u32>,
) -> (message: schema::BlockRequest)
    ensures
        message@ == encoded_request(
            attributes@,
            start_view(from_block),
            optional_bytes(to_block),
            direction,
            max_blocks,
        ),
        message.fields == 0x100_0000 * attributes@,
        match (from_block, message.from_block) {
            (FromBlock::Hash(given), Some(schema::FromBlock::Hash(sent))) => sent@ == given@,
            (FromBlock::Number(given), Some(schema::FromBlock::Number(sent))) => sent@ == given@,
            _ => false,
        },
        to_block matches Some(given) ==> message.to_block@ == given@,
        to_block is None ==> message.to_block@.len() == 0,
        direction is Ascending ==> message.direction == 0,
        direction is Descending ==> message.direction == 1,
        max_blocks matches Some(limit) ==> message.max_blocks == limit,
        max_blocks is None ==> message.max_blocks == 0,
{
    proof {
        use_type_invariant(attributes);
    }
    schema::BlockRequest {
        fields: attributes.to_be_u32(),
        from_block: Some(
            match from_block {
                FromBlock::Hash(hash) => schema::FromBlock::Hash(hash),
                FromBlock::Number(number) => schema::FromBlock::Number(number),
            },
        ),
        to_block: match to_block {
            Some(hash) => hash,
            None => Vec::new(),
        },
        direction: match direction {
            Direction::Ascending => 0,
            Direction::Descending => 1,
        },
        max_blocks: match max_blocks {
            Some(max) => max,
            None => 0,
        },
    }
}

impl gBlockRequest<BlockHash, BlockNumber> {
    /// The protobuf message for the request.
    pub fn to_protobuf(&self) -> (message: schema::BlockRequest)
        ensures
            message@ == protobuf_request(
                self.fields@,
                self.from,
                self.to,
                self.direction,
                self.max,
            ),
    {
        let from = match self.from {
            FromBlock::Hash(hash) => FromBlock::Hash(encode_hash(&hash)),
            FromBlock::Number(number) => FromBlock::Number(encode_number(number)),
        };
        let to = match self.to {
            Some(hash) => Some(encode_hash(&hash)),
            None => None,
        };
        build_protobuf_block_request(self.fields, from, to, self.direction, self.max)
    }
}

/// What a request asks for can be read from its message: the parts from the fields, the
/// start from the start, the end from the end, whatever the start is, and the direction and
/// the limit from theirs.
pub proof fn protobuf_request_is_faithful(
    attributes: u8,
    from: FromBlock<BlockHash, BlockNumber>,
    to: Option<BlockHash>,
    direction: Direction,
    max: Option<u32>,
)
    requires
        known_bits(attributes),
    ensures
        ({
            let message = protobuf_request(attributes, from, to, direction, max);
            &&& word_attributes(message.fields) == Ok::<u8, CodecError>(attributes)
            &&& match (from, message.from_block) {
                (FromBlock::Hash(hash), Some(schema::FromBlockView::Hash(bytes))) => hash_of(bytes)
                    == Some(hash@),
                (FromBlock::Number(number), Some(schema::FromBlockView::Number(bytes))) => {
                    number_of(bytes) == Some(number as nat)
                },
                _ => false,
            }
            &&& to matches Some(hash) ==> message.to_block == hash@ && hash_of(message.to_block)
                == Some(hash@)
            &&& to is None <==> message.to_block.len() == 0
            &&& direction is Ascending <==> message.direction == 0
            &&& direction is Descending <==> message.direction == 1
            &&& max matches Some(limit) ==> message.max_blocks == limit
            &&& max is None ==> message.max_blocks == 0
        }),
{
    attributes_round_trip(attributes, Seq::empty());
    if let Some(hash) = to {
        assert(hash@.take(32) =~= hash@);
    }
    match from {
        FromBlock::Hash(hash) => {
            assert(hash@.take(32) =~= hash@);
        },
        FromBlock::Number(number) => {
            lemma_number_round_trip(number);
        },
    }
}

/// The message for a request is made of the encodings that it is given, each in its own
/// place: no part of it depends on another.
pub proof fn messages_take_each_part_from_its_own(
    attributes: u8,
    from: schema::FromBlockView,
    to: Option<Seq<u8>>,
    direction: Direction,
    max: Option<u32>,
)
    requires
        known_bits(attributes),
    ensures
        ({
            let message = encoded_request(attributes, from, to, direction, max);
            &&& message.fields == 0x100_0000 * attributes
            &&& message.from_block == Some(from)
            &&& to matches Some(hash) ==> message.to_block == hash
            &&& to is None ==> message.to_block == Seq::<u8>::empty()
            &&& message.direction == (if direction is Ascending { 0int } else { 1int })
            &&& message.max_blocks == (if max is Some { max->0 as int } else { 0int })
        }),
{
}

/// Five bits stand for parts of a block, and no others. A word carries them in its most
/// significant byte, and its other bytes do not count; a byte carries them as they are.
pub proof fn attributes_are_the_five_low_bits(bits: u8, low: u32, rest: Seq<u8>)
    requires
        low < 0x100_0000,
    ensures
        known_bits(bits) <==> bits & 0b1110_0000 == 0,
        known_bits(bits) ==> attributes_word(bits) == 0x100_0000 * bits,
        word_attributes((0x100_0000 * bits + low) as u32) == if bits & 0b1110_0000 == 0 {
            Ok::<u8, CodecError>(bits)
        } else {
            Err::<u8, CodecError>(CodecError::InvalidBlockAttributes)
        },
        attributes_of(seq![bits] + rest) == if bits & 0b1110_0000 == 0 {
            Ok::<u8, CodecError>(bits)
        } else {
            Err::<u8, CodecError>(CodecError::InvalidBytes)
        },
        attributes_of(Seq::empty()) == Err::<u8, CodecError>(CodecError::Malformed),
{
    assert(bits < 32 <==> bits & 0b1110_0000 == 0) by (bit_vector);
    assert((0x100_0000 * bits + low) / 0x100_0000 == bits);
    assert((seq![bits] + rest)[0] == bits);
}

/// A block of a response stands for its own parts.
pub proof fn blocks_stand_for_their_parts(block: BlockData<Header, BlockHash, Extrinsic>, i: int)
    ensures
        block@.hash == block.hash@,
        block@.header is Some <==> block.header is Some,
        block.header matches Some(header) ==> block@.header == Some(header@),
        block@.body is Some <==> block.body is Some,
        block.body matches Some(body) ==> block@.body->0.len() == body@.len() && (0 <= i
            < body@.len() ==> block@.body->0[i] == body@[i]@),
        block.receipt matches Some(bytes) ==> block@.receipt == Some(bytes@),
        block.receipt is None ==> block@.receipt is None,
        block.message_queue matches Some(bytes) ==> block@.message_queue == Some(bytes@),
        block.message_queue is None ==> block@.message_queue is None,
        block.justification matches Some(bytes) ==> block@.justification == Some(bytes@),
        block.justification is None ==> block@.justification is None,
{
}

} // verus!
