//! The messages of the block sync protocol and their protobuf encoding.
use crate::octets::{copy_bytes, views};
use crate::wire::{
    bytes_field, decode_key, delimited_of, encode_bool, encode_bytes, encode_int32, encode_uint32,
    key, key_of, lemma_delimited_round_trip, lemma_key_round_trip, lemma_varint_shortens,
    lemma_varint_round_trip, low_i32, low_u32, merge_bool, merge_bytes, merge_int32, merge_uint32,
    number_field, sign_extended, skip_field, skip_within, skipped_within, two_64, varint,
    varint_of, after_skipped, Malformed, WireType,
};
use vstd::prelude::*;
use vstd::slice::slice_subrange;

verus! {

/// Where a requested range of blocks starts.
#[derive(Debug)]
pub enum FromBlock {
    /// At the block with this encoded hash.
    Hash(Vec<u8>),
    /// At the block with this encoded number.
    Number(Vec<u8>),
}

/// What a `FromBlock` stands for.
pub enum FromBlockView {
    Hash(Seq<u8>),
    Number(Seq<u8>),
}

impl View for FromBlock {
    type V = FromBlockView;

    open spec fn view(&self) -> FromBlockView {
        match *self {
            FromBlock::Hash(bytes) => FromBlockView::Hash(bytes@),
            FromBlock::Number(bytes) => FromBlockView::Number(bytes@),
        }
    }
}

/// A request for a range of blocks.
#[derive(Debug)]
pub struct BlockRequest {
    /// Which parts of each block are wanted.
    pub fields: u32,
    /// Where the range starts.
    pub from_block: Option<FromBlock>,
    /// The encoded hash of the last block; empty where no end is given.
    pub to_block: Vec<u8>,
    /// 0 for ascending, 1 for descending.
    pub direction: i32,
    /// How many blocks to send at most; 0 where no limit is given.
    pub max_blocks: u32,
}

/// What a `BlockRequest` stands for.
#[verifier::ext_equal]
pub struct BlockRequestView {
    pub fields: u32,
    pub from_block: Option<FromBlockView>,
    pub to_block: Seq<u8>,
    pub direction: i32,
    pub max_blocks: u32,
}

impl View for BlockRequest {
    type V = BlockRequestView;

    open spec fn view(&self) -> BlockRequestView {
        BlockRequestView {
            fields: self.fields,
            from_block: match self.from_block {
                Some(from) => Some(from@),
                None => None,
            },
            to_block: self.to_block@,
            direction: self.direction,
            max_blocks: self.max_blocks,
        }
    }
}

/// One block of a response.
#[derive(Debug)]
pub struct BlockData {
    /// The encoded hash.
    pub hash: Vec<u8>,
    /// The encoded header; empty where it was not asked for.
    pub header: Vec<u8>,
    /// The encoded extrinsics.
    pub body: Vec<Vec<u8>>,
    pub receipt: Vec<u8>,
    pub message_queue: Vec<u8>,
    pub justification: Vec<u8>,
    /// Whether the justification is there and empty.
    pub is_empty_justification: bool,
}

/// What a `BlockData` stands for.
#[verifier::ext_equal]
pub struct BlockDataView {
    pub hash: Seq<u8>,
    pub header: Seq<u8>,
    pub body: Seq<Seq<u8>>,
    pub receipt: Seq<u8>,
    pub message_queue: Seq<u8>,
    pub justification: Seq<u8>,
    pub is_empty_justification: bool,
}

impl View for BlockData {
    type V = BlockDataView;

    open spec fn view(&self) -> BlockDataView {
        BlockDataView {
            hash: self.hash@,
            header: self.header@,
            body: views(self.body@),
            receipt: self.receipt@,
            message_queue: self.message_queue@,
            justification: self.justification@,
            is_empty_justification: self.is_empty_justification,
        }
    }
}

/// The blocks that answer a request.
#[derive(Debug)]
pub struct BlockResponse {
    pub blocks: Vec<BlockData>,
}

/// The blocks of a list.
pub open spec fn block_views(list: Seq<BlockData>) -> Seq<BlockDataView> {
    Seq::new(list.len(), |i: int| list[i]@)
}

impl View for BlockResponse {
    type V = Seq<BlockDataView>;

    open spec fn view(&self) -> Seq<BlockDataView> {
        block_views(self.blocks@)
    }
}

/// A number as a field; zero is left out.
pub open spec fn number_or_nothing(tag: nat, v: nat) -> Seq<u8> {
    if v == 0 {
        Seq::empty()
    } else {
        number_field(tag, v)
    }
}

/// Bytes as a field; an empty string is left out.
pub open spec fn bytes_or_nothing(tag: nat, value: Seq<u8>) -> Seq<u8> {
    if value.len() == 0 {
        Seq::empty()
    } else {
        bytes_field(tag, value)
    }
}

/// Byte strings as fields of one tag, in order.
pub open spec fn repeated_field(tag: nat, values: Seq<Seq<u8>>) -> Seq<u8>
    decreases values.len(),
{
    if values.len() == 0 {
        Seq::empty()
    } else {
        repeated_field(tag, values.drop_last()) + bytes_field(tag, values.last())
    }
}

/// The start of a range as a field: the hash under tag 2, the number under tag 3.
pub open spec fn from_block_field(from: Option<FromBlockView>) -> Seq<u8> {
    match from {
        Some(FromBlockView::Hash(bytes)) => bytes_field(2, bytes),
        Some(FromBlockView::Number(bytes)) => bytes_field(3, bytes),
        None => Seq::empty(),
    }
}

/// The encoding of a request: its fields in the order of their tags.
pub open spec fn request_bytes(m: BlockRequestView) -> Seq<u8> {
    number_or_nothing(1, m.fields as nat) + from_block_field(m.from_block) + bytes_or_nothing(
        4,
        m.to_block,
    ) + number_or_nothing(5, sign_extended(m.direction)) + number_or_nothing(
        6,
        m.max_blocks as nat,
    )
}

/// The encoding of a block: its fields in the order of their tags.
pub open spec fn block_bytes(m: BlockDataView) -> Seq<u8> {
    bytes_or_nothing(1, m.hash) + bytes_or_nothing(2, m.header) + repeated_field(3, m.body)
        + bytes_or_nothing(4, m.receipt) + bytes_or_nothing(5, m.message_queue) + bytes_or_nothing(
        6,
        m.justification,
    ) + number_or_nothing(7, if m.is_empty_justification { 1 } else { 0 })
}

/// The encoding of a response: each block as a field under tag 1.
pub open spec fn response_bytes(blocks: Seq<BlockDataView>) -> Seq<u8>
    decreases blocks.len(),
{
    if blocks.len() == 0 {
        Seq::empty()
    } else {
        response_bytes(blocks.drop_last()) + bytes_field(1, block_bytes(blocks.last()))
    }
}

/// The request that nothing was read into yet.
pub open spec fn empty_request() -> BlockRequestView {
    BlockRequestView {
        fields: 0,
        from_block: None,
        to_block: Seq::empty(),
        direction: 0,
        max_blocks: 0,
    }
}

/// The block that nothing was read into yet.
pub open spec fn empty_block() -> BlockDataView {
    BlockDataView {
        hash: Seq::empty(),
        header: Seq::empty(),
        body: Seq::empty(),
        receipt: Seq::empty(),
        message_queue: Seq::empty(),
        justification: Seq::empty(),
        is_empty_justification: false,
    }
}

/// The number behind a key of the wire type for numbers, and what follows it.
pub open spec fn number_value(wire_type: WireType, b: Seq<u8>) -> Option<(nat, Seq<u8>)> {
    if wire_type is Varint {
        varint_of(b)
    } else {
        None
    }
}

/// The bytes behind a key of the wire type for bytes, and what follows them.
pub open spec fn bytes_value(wire_type: WireType, b: Seq<u8>) -> Option<(Seq<u8>, Seq<u8>)> {
    if wire_type is LengthDelimited {
        delimited_of(b)
    } else {
        None
    }
}

/// A request after one more field, whose key was read; a later field takes the
/// place of an earlier one, and a field of another tag is passed over.
pub open spec fn request_with_field(
    m: BlockRequestView,
    tag: u32,
    wire_type: WireType,
    b: Seq<u8>,
) -> Option<(BlockRequestView, Seq<u8>)> {
    if tag == 1 {
        match number_value(wire_type, b) {
            Some((v, rest)) => Some(
                (BlockRequestView { fields: low_u32(v) as u32, ..m }, rest),
            ),
            None => None,
        }
    } else if tag == 2 {
        match bytes_value(wire_type, b) {
            Some((v, rest)) => Some(
                (BlockRequestView { from_block: Some(FromBlockView::Hash(v)), ..m }, rest),
            ),
            None => None,
        }
    } else if tag == 3 {
        match bytes_value(wire_type, b) {
            Some((v, rest)) => Some(
                (BlockRequestView { from_block: Some(FromBlockView::Number(v)), ..m }, rest),
            ),
            None => None,
        }
    } else if tag == 4 {
        match bytes_value(wire_type, b) {
            Some((v, rest)) => Some((BlockRequestView { to_block: v, ..m }, rest)),
            None => None,
        }
    } else if tag == 5 {
        match number_value(wire_type, b) {
            Some((v, rest)) => Some(
                (BlockRequestView { direction: low_i32(v) as i32, ..m }, rest),
            ),
            None => None,
        }
    } else if tag == 6 {
        match number_value(wire_type, b) {
            Some((v, rest)) => Some(
                (BlockRequestView { max_blocks: low_u32(v) as u32, ..m }, rest),
            ),
            None => None,
        }
    } else {
        match after_skipped(tag, wire_type, b) {
            Some(rest) => Some((m, rest)),
            None => None,
        }
    }
}

/// A request after all the fields of `b`, if every one of them can be read.
pub open spec fn request_with_fields(m: BlockRequestView, b: Seq<u8>) -> Option<BlockRequestView>
    decreases b.len(),
{
    if b.len() == 0 {
        Some(m)
    } else {
        match key_of(b) {
            Some((tag, wire_type, rest)) => match request_with_field(
                m,
                tag as u32,
                wire_type,
                rest,
            ) {
                Some((next, after)) => if after.len() < b.len() {
                    request_with_fields(next, after)
                } else {
                    None
                },
                None => None,
            },
            None => None,
        }
    }
}

/// The request that `b` encodes.
pub open spec fn request_of(b: Seq<u8>) -> Option<BlockRequestView> {
    request_with_fields(empty_request(), b)
}

/// A block after one more field, whose key was read.
pub open spec fn block_with_field(
    m: BlockDataView,
    tag: u32,
    wire_type: WireType,
    b: Seq<u8>,
) -> Option<(BlockDataView, Seq<u8>)> {
    if 1 <= tag <= 6 {
        match bytes_value(wire_type, b) {
            Some((v, rest)) => Some(
                (
                    if tag == 1 {
                        BlockDataView { hash: v, ..m }
                    } else if tag == 2 {
                        BlockDataView { header: v, ..m }
                    } else if tag == 3 {
                        BlockDataView { body: m.body.push(v), ..m }
                    } else if tag == 4 {
                        BlockDataView { receipt: v, ..m }
                    } else if tag == 5 {
                        BlockDataView { message_queue: v, ..m }
                    } else {
                        BlockDataView { justification: v, ..m }
                    },
                    rest,
                ),
            ),
            None => None,
        }
    } else if tag == 7 {
        match number_value(wire_type, b) {
            Some((v, rest)) => Some((BlockDataView { is_empty_justification: v != 0, ..m }, rest)),
            None => None,
        }
    } else {
        match after_skipped(tag, wire_type, b) {
            Some(rest) => Some((m, rest)),
            None => None,
        }
    }
}

/// Whether a field may stand in a block, which itself stands in a response: a group may
/// where it is not nested too deep for that.
pub open spec fn fits_within(wire_type: WireType, field: Seq<u8>) -> bool {
    wire_type is StartGroup ==> skipped_within(varint(field.len()) + field)
}

/// A block after all the fields of `b`, if every one of them can be read.
pub open spec fn block_with_fields(m: BlockDataView, b: Seq<u8>) -> Option<BlockDataView>
    decreases b.len(),
{
    if b.len() == 0 {
        Some(m)
    } else {
        match key_of(b) {
            Some((tag, wire_type, rest)) => match block_with_field(m, tag as u32, wire_type, rest) {
                Some((next, after)) => if after.len() < b.len() && fits_within(
                    wire_type,
                    b.take(b.len() - after.len()),
                ) {
                    block_with_fields(next, after)
                } else {
                    None
                },
                None => None,
            },
            None => None,
        }
    }
}

/// The block that `b` encodes.
pub open spec fn block_of(b: Seq<u8>) -> Option<BlockDataView> {
    block_with_fields(empty_block(), b)
}

/// A response after one more field, whose key was read.
pub open spec fn response_with_field(
    blocks: Seq<BlockDataView>,
    tag: u32,
    wire_type: WireType,
    b: Seq<u8>,
) -> Option<(Seq<BlockDataView>, Seq<u8>)> {
    if tag == 1 {
        match bytes_value(wire_type, b) {
            Some((v, rest)) => match block_of(v) {
                Some(block) => Some((blocks.push(block), rest)),
                None => None,
            },
            None => None,
        }
    } else {
        match after_skipped(tag, wire_type, b) {
            Some(rest) => Some((blocks, rest)),
            None => None,
        }
    }
}

/// A response after all the fields of `b`, if every one of them can be read.
pub open spec fn response_with_fields(blocks: Seq<BlockDataView>, b: Seq<u8>) -> Option<
    Seq<BlockDataView>,
>
    decreases b.len(),
{
    if b.len() == 0 {
        Some(blocks)
    } else {
        match key_of(b) {
            Some((tag, wire_type, rest)) => match response_with_field(
                blocks,
                tag as u32,
                wire_type,
                rest,
            ) {
                Some((next, after)) => if after.len() < b.len() {
                    response_with_fields(next, after)
                } else {
                    None
                },
                None => None,
            },
            None => None,
        }
    }
}

/// The blocks that `b` encodes.
pub open spec fn response_of(b: Seq<u8>) -> Option<Seq<BlockDataView>> {
    response_with_fields(Seq::empty(), b)
}


/// Reads a number behind a key.
fn read_uint32<'a>(wire_type: WireType, buf: &'a [u8]) -> (r: Result<(u32, &'a [u8]), Malformed>)
    ensures
        match r {
            Ok((value, rest)) => number_value(wire_type, buf@) matches Some((v, after)) && value
                == low_u32(v) && rest@ == after && rest@.len() < buf@.len(),
            Err(_) => number_value(wire_type, buf@) is None,
        },
{
    proof {
        lemma_varint_shortens(buf@);
    }
    match wire_type {
        WireType::Varint => match merge_uint32(buf) {
            Ok(read) => Ok(read),
            Err(_) => Err(Malformed),
        },
        _ => Err(Malformed),
    }
}

/// Reads bytes behind a key.
fn read_bytes<'a>(wire_type: WireType, buf: &'a [u8]) -> (r: Result<
    (Vec<u8>, &'a [u8]),
    Malformed,
>)
    ensures
        match r {
            Ok((value, rest)) => bytes_value(wire_type, buf@) == Some((value@, rest@))
                && rest@.len() < buf@.len(),
            Err(_) => bytes_value(wire_type, buf@) is None,
        },
{
    proof {
        lemma_varint_shortens(buf@);
    }
    match wire_type {
        WireType::LengthDelimited => match merge_bytes(buf) {
            Ok(read) => Ok(read),
            Err(_) => Err(Malformed),
        },
        _ => Err(Malformed),
    }
}

/// Passes over a field.
fn read_past<'a>(tag: u32, wire_type: WireType, buf: &'a [u8]) -> (r: Result<&'a [u8], Malformed>)
    ensures
        match r {
            Ok(rest) => after_skipped(tag, wire_type, buf@) == Some(rest@) && rest@.len()
                <= buf@.len(),
            Err(_) => after_skipped(tag, wire_type, buf@) is None,
        },
{
    match skip_field(tag, wire_type, buf) {
        Ok(rest) => Ok(rest),
        Err(_) => Err(Malformed),
    }
}

/// Tells whether a field may stand in a block.
fn nests(wire_type: WireType, field: &[u8]) -> (r: bool)
    ensures
        r == fits_within(wire_type, field@),
{
    match wire_type {
        WireType::StartGroup => {
            let mut framed: Vec<u8> = Vec::new();
            encode_bytes(1, &copy_bytes(field), &mut framed);
            proof {
                assert(key(1, WireType::LengthDelimited).len() == 1);
                assert(framed@.skip(1) =~= varint(field@.len()) + field@);
            }
            let behind_key = slice_subrange(framed.as_slice(), 1, framed.len());
            assert(behind_key@ =~= framed@.skip(1));
            skip_within(behind_key).is_ok()
        },
        _ => true,
    }
}

impl BlockRequest {
    /// The encoding of the request.
    pub fn encode(&self) -> (buf: Vec<u8>)
        ensures
            buf@ == request_bytes(self@),
    {
        let mut buf: Vec<u8> = Vec::new();
        if self.fields != 0 {
            encode_uint32(1, self.fields, &mut buf);
        }
        assert(buf@ =~= number_or_nothing(1, self@.fields as nat));
        let ghost before = buf@;
        match &self.from_block {
            Some(FromBlock::Hash(bytes)) => encode_bytes(2, bytes, &mut buf),
            Some(FromBlock::Number(bytes)) => encode_bytes(3, bytes, &mut buf),
            None => {},
        }
        assert(buf@ =~= before + from_block_field(self@.from_block));
        let ghost before = buf@;
        if self.to_block.len() != 0 {
            encode_bytes(4, &self.to_block, &mut buf);
        }
        assert(buf@ =~= before + bytes_or_nothing(4, self@.to_block));
        let ghost before = buf@;
        if self.direction != 0 {
            encode_int32(5, self.direction, &mut buf);
        }
        assert(buf@ =~= before + number_or_nothing(5, sign_extended(self@.direction)));
        let ghost before = buf@;
        if self.max_blocks != 0 {
            encode_uint32(6, self.max_blocks, &mut buf);
        }
        assert(buf@ =~= before + number_or_nothing(6, self@.max_blocks as nat));
        buf
    }

    /// Reads the value of one field, whose key was read, into the request.
    fn merge_field<'a>(self, tag: u32, wire_type: WireType, buf: &'a [u8]) -> (r: Result<
        (BlockRequest, &'a [u8]),
        Malformed,
    >)
        ensures
            match r {
                Ok((next, rest)) => request_with_field(self@, tag, wire_type, buf@) == Some(
                    (next@, rest@),
                ) && rest@.len() <= buf@.len(),
                Err(_) => request_with_field(self@, tag, wire_type, buf@) is None,
            },
    {
        let mut next = self;
        if tag == 1 {
            let (value, rest) = read_uint32(wire_type, buf)?;
            next.fields = value;
            Ok((next, rest))
        } else if tag == 2 {
            let (value, rest) = read_bytes(wire_type, buf)?;
            next.from_block = Some(FromBlock::Hash(value));
            Ok((next, rest))
        } else if tag == 3 {
            let (value, rest) = read_bytes(wire_type, buf)?;
            next.from_block = Some(FromBlock::Number(value));
            Ok((next, rest))
        } else if tag == 4 {
            let (value, rest) = read_bytes(wire_type, buf)?;
            next.to_block = value;
            Ok((next, rest))
        } else if tag == 5 {
            match wire_type {
                WireType::Varint => match merge_int32(buf) {
                    Ok((value, rest)) => {
                        proof {
                            lemma_varint_shortens(buf@);
                        }
                        next.direction = value;
                        Ok((next, rest))
                    },
                    Err(_) => Err(Malformed),
                },
                _ => Err(Malformed),
            }
        } else if tag == 6 {
            let (value, rest) = read_uint32(wire_type, buf)?;
            next.max_blocks = value;
            Ok((next, rest))
        } else {
            let rest = read_past(tag, wire_type, buf)?;
            Ok((next, rest))
        }
    }

    /// The request that `bytes` encodes.
    pub fn decode(bytes: &[u8]) -> (r: Result<BlockRequest, Malformed>)
        ensures
            match r {
                Ok(request) => request_of(bytes@) == Some(request@),
                Err(_) => request_of(bytes@) is None,
            },
    {
        let mut request = BlockRequest {
            fields: 0,
            from_block: None,
            to_block: Vec::new(),
            direction: 0,
            max_blocks: 0,
        };
        let mut rest = bytes;
        assert(request@ =~= empty_request());
        while rest.len() != 0
            invariant
                request_of(bytes@) == request_with_fields(request@, rest@),
            decreases rest@.len(),
        {
            let (tag, wire_type, value) = match decode_key(rest) {
                Ok(key) => key,
                Err(_) => return Err(Malformed),
            };
            proof {
                lemma_varint_shortens(rest@);
            }
            let (next, after) = request.merge_field(tag, wire_type, value)?;
            request = next;
            rest = after;
        }
        Ok(request)
    }
}


impl BlockData {
    /// The encoding of the block.
    fn encode(&self) -> (buf: Vec<u8>)
        ensures
            buf@ == block_bytes(self@),
    {
        let mut buf: Vec<u8> = Vec::new();
        if self.hash.len() != 0 {
            encode_bytes(1, &self.hash, &mut buf);
        }
        assert(buf@ =~= bytes_or_nothing(1, self@.hash));
        let ghost before = buf@;
        if self.header.len() != 0 {
            encode_bytes(2, &self.header, &mut buf);
        }
        assert(buf@ =~= before + bytes_or_nothing(2, self@.header));
        let ghost before = buf@;
        let mut i: usize = 0;
        assert(before + repeated_field(3, self@.body.take(0)) =~= before);
        while i < self.body.len()
            invariant
                i <= self.body@.len(),
                self@.body == views(self.body@),
                buf@ == before + repeated_field(3, self@.body.take(i as int)),
            decreases self.body@.len() - i,
        {
            encode_bytes(3, &self.body[i], &mut buf);
            proof {
                let done = self@.body.take(i + 1);
                assert(done.drop_last() =~= self@.body.take(i as int));
                assert(done.last() == self.body@[i as int]@);
                assert(buf@ =~= before + repeated_field(3, done));
            }
            i = i + 1;
        }
        assert(self@.body.take(i as int) =~= self@.body);
        let ghost before = buf@;
        if self.receipt.len() != 0 {
            encode_bytes(4, &self.receipt, &mut buf);
        }
        assert(buf@ =~= before + bytes_or_nothing(4, self@.receipt));
        let ghost before = buf@;
        if self.message_queue.len() != 0 {
            encode_bytes(5, &self.message_queue, &mut buf);
        }
        assert(buf@ =~= before + bytes_or_nothing(5, self@.message_queue));
        let ghost before = buf@;
        if self.justification.len() != 0 {
            encode_bytes(6, &self.justification, &mut buf);
        }
        assert(buf@ =~= before + bytes_or_nothing(6, self@.justification));
        let ghost before = buf@;
        if self.is_empty_justification {
            encode_bool(7, true, &mut buf);
        }
        assert(buf@ =~= before + number_or_nothing(
            7,
            if self@.is_empty_justification {
                1
            } else {
                0
            },
        ));
        buf
    }

    /// Reads the value of one field, whose key was read, into the block.
    fn merge_field<'a>(self, tag: u32, wire_type: WireType, buf: &'a [u8]) -> (r: Result<
        (BlockData, &'a [u8]),
        Malformed,
    >)
        ensures
            match r {
                Ok((next, rest)) => block_with_field(self@, tag, wire_type, buf@) == Some(
                    (next@, rest@),
                ) && rest@.len() <= buf@.len(),
                Err(_) => block_with_field(self@, tag, wire_type, buf@) is None,
            },
    {
        let mut next = self;
        if 1 <= tag && tag <= 6 {
            let (value, rest) = read_bytes(wire_type, buf)?;
            if tag == 1 {
                next.hash = value;
            } else if tag == 2 {
                next.header = value;
            } else if tag == 3 {
                next.body.push(value);
                assert(views(next.body@) =~= views(self.body@).push(value@));
            } else if tag == 4 {
                next.receipt = value;
            } else if tag == 5 {
                next.message_queue = value;
            } else {
                next.justification = value;
            }
            Ok((next, rest))
        } else if tag == 7 {
            match wire_type {
                WireType::Varint => match merge_bool(buf) {
                    Ok((value, rest)) => {
                        proof {
                            lemma_varint_shortens(buf@);
                        }
                        next.is_empty_justification = value;
                        Ok((next, rest))
                    },
                    Err(_) => Err(Malformed),
                },
                _ => Err(Malformed),
            }
        } else {
            let rest = read_past(tag, wire_type, buf)?;
            Ok((next, rest))
        }
    }

    /// The block that `bytes` encodes.
    fn decode(bytes: &[u8]) -> (r: Result<BlockData, Malformed>)
        ensures
            match r {
                Ok(block) => block_of(bytes@) == Some(block@),
                Err(_) => block_of(bytes@) is None,
            },
    {
        let mut block = BlockData {
            hash: Vec::new(),
            header: Vec::new(),
            body: Vec::new(),
            receipt: Vec::new(),
            message_queue: Vec::new(),
            justification: Vec::new(),
            is_empty_justification: false,
        };
        let mut rest = bytes;
        assert(block@ =~= empty_block());
        while rest.len() != 0
            invariant
                block_of(bytes@) == block_with_fields(block@, rest@),
            decreases rest@.len(),
        {
            let (tag, wire_type, value) = match decode_key(rest) {
                Ok(key) => key,
                Err(_) => return Err(Malformed),
            };
            proof {
                lemma_varint_shortens(rest@);
            }
            let (next, after) = block.merge_field(tag, wire_type, value)?;
            let field = slice_subrange(rest, 0, rest.len() - after.len());
            assert(field@ =~= rest@.take(rest@.len() - after@.len()));
            if !nests(wire_type, field) {
                return Err(Malformed);
            }
            block = next;
            rest = after;
        }
        Ok(block)
    }
}

impl BlockResponse {
    /// The encoding of the response.
    pub fn encode(&self) -> (buf: Vec<u8>)
        ensures
            buf@ == response_bytes(self@),
    {
        let mut buf: Vec<u8> = Vec::new();
        let mut i: usize = 0;
        while i < self.blocks.len()
            invariant
                i <= self.blocks@.len(),
                self@ == block_views(self.blocks@),
                buf@ == response_bytes(self@.take(i as int)),
            decreases self.blocks@.len() - i,
        {
            let block = self.blocks[i].encode();
            encode_bytes(1, &block, &mut buf);
            proof {
                let done = self@.take(i + 1);
                assert(done.drop_last() =~= self@.take(i as int));
                assert(done.last() == self.blocks@[i as int]@);
            }
            i = i + 1;
        }
        assert(self@.take(i as int) =~= self@);
        buf
    }

    /// Reads the value of one field, whose key was read, into the response.
    fn merge_field<'a>(self, tag: u32, wire_type: WireType, buf: &'a [u8]) -> (r: Result<
        (BlockResponse, &'a [u8]),
        Malformed,
    >)
        ensures
            match r {
                Ok((next, rest)) => response_with_field(self@, tag, wire_type, buf@) == Some(
                    (next@, rest@),
                ) && rest@.len() <= buf@.len(),
                Err(_) => response_with_field(self@, tag, wire_type, buf@) is None,
            },
    {
        let mut next = self;
        if tag == 1 {
            let (value, rest) = read_bytes(wire_type, buf)?;
            let block = BlockData::decode(value.as_slice())?;
            next.blocks.push(block);
            assert(block_views(next.blocks@) =~= block_views(self.blocks@).push(block@));
            Ok((next, rest))
        } else {
            let rest = read_past(tag, wire_type, buf)?;
            Ok((next, rest))
        }
    }

    /// The response that `bytes` encodes.
    pub fn decode(bytes: &[u8]) -> (r: Result<BlockResponse, Malformed>)
        ensures
            match r {
                Ok(response) => response_of(bytes@) == Some(response@),
                Err(_) => response_of(bytes@) is None,
            },
    {
        let mut response = BlockResponse { blocks: Vec::new() };
        let mut rest = bytes;
        assert(response@ =~= Seq::<BlockDataView>::empty());
        while rest.len() != 0
            invariant
                response_of(bytes@) == response_with_fields(response@, rest@),
            decreases rest@.len(),
        {
            let (tag, wire_type, value) = match decode_key(rest) {
                Ok(key) => key,
                Err(_) => return Err(Malformed),
            };
            proof {
                lemma_varint_shortens(rest@);
            }
            let (next, after) = response.merge_field(tag, wire_type, value)?;
            response = next;
            rest = after;
        }
        Ok(response)
    }
}

/// A number written as a field is read back.
proof fn lemma_number_field(tag: nat, v: nat, rest: Seq<u8>)
    requires
        1 <= tag < 0x2000_0000,
        v < two_64(),
    ensures
        number_field(tag, v).len() > 0,
        key_of(number_field(tag, v) + rest) == Some((tag, WireType::Varint, varint(v) + rest)),
        number_value(WireType::Varint, varint(v) + rest) == Some((v, rest)),
{
    assert(number_field(tag, v) + rest =~= key(tag, WireType::Varint) + (varint(v) + rest));
    lemma_key_round_trip(tag, WireType::Varint, varint(v) + rest);
    lemma_varint_shortens(number_field(tag, v) + rest);
    lemma_varint_round_trip(v, rest);
}

/// Bytes written as a field are read back.
proof fn lemma_bytes_field(tag: nat, value: Seq<u8>, rest: Seq<u8>)
    requires
        1 <= tag < 0x2000_0000,
        value.len() < two_64(),
    ensures
        bytes_field(tag, value).len() > 0,
        key_of(bytes_field(tag, value) + rest) == Some(
            (tag, WireType::LengthDelimited, varint(value.len()) + value + rest),
        ),
        bytes_value(WireType::LengthDelimited, varint(value.len()) + value + rest) == Some(
            (value, rest),
        ),
{
    let wire_type = WireType::LengthDelimited;
    assert(bytes_field(tag, value) + rest =~= key(tag, wire_type) + (varint(value.len()) + value
        + rest));
    lemma_key_round_trip(tag, wire_type, varint(value.len()) + value + rest);
    lemma_varint_shortens(bytes_field(tag, value) + rest);
    lemma_delimited_round_trip(value, rest);
}

/// Reading a request whose next field is a number, or left out for being zero.
proof fn lemma_request_number(m: BlockRequestView, tag: nat, v: nat, rest: Seq<u8>)
    requires
        tag == 1 || tag == 5 || tag == 6,
        v < two_64(),
        tag == 1 ==> m.fields == 0,
        tag == 5 ==> m.direction == 0,
        tag == 6 ==> m.max_blocks == 0,
    ensures
        request_with_fields(m, number_or_nothing(tag, v) + rest) == request_with_fields(
            if tag == 1 {
                BlockRequestView { fields: low_u32(v) as u32, ..m }
            } else if tag == 5 {
                BlockRequestView { direction: low_i32(v) as i32, ..m }
            } else {
                BlockRequestView { max_blocks: low_u32(v) as u32, ..m }
            },
            rest,
        ),
{
    if v == 0 {
        assert(number_or_nothing(tag, v) + rest =~= rest);
    } else {
        lemma_number_field(tag, v, rest);
        assert((number_field(tag, v) + rest).len() > rest.len());
    }
}

/// Reading a request whose next field is bytes.
proof fn lemma_request_bytes(m: BlockRequestView, tag: nat, value: Seq<u8>, rest: Seq<u8>)
    requires
        2 <= tag <= 4,
        value.len() < two_64(),
    ensures
        request_with_fields(m, bytes_field(tag, value) + rest) == request_with_fields(
            if tag == 2 {
                BlockRequestView { from_block: Some(FromBlockView::Hash(value)), ..m }
            } else if tag == 3 {
                BlockRequestView { from_block: Some(FromBlockView::Number(value)), ..m }
            } else {
                BlockRequestView { to_block: value, ..m }
            },
            rest,
        ),
{
    lemma_bytes_field(tag, value, rest);
    assert((bytes_field(tag, value) + rest).len() > rest.len());
}

/// How long the byte strings of a request may be: what a 64-bit length counts.
pub open spec fn request_fits(m: BlockRequestView) -> bool {
    &&& m.to_block.len() < two_64()
    &&& match m.from_block {
        Some(FromBlockView::Hash(bytes)) => bytes.len() < two_64(),
        Some(FromBlockView::Number(bytes)) => bytes.len() < two_64(),
        None => true,
    }
}

/// Five byte strings one behind the other, put together from either end.
proof fn lemma_five_parts(a: Seq<u8>, b: Seq<u8>, c: Seq<u8>, d: Seq<u8>, e: Seq<u8>)
    ensures
        a + b + c + d + e == a + (b + (c + (d + e))),
{
    assert(a + b + c + d + e =~= a + b + c + (d + e));
    assert(a + b + c + (d + e) =~= a + b + (c + (d + e)));
    assert(a + b + (c + (d + e)) =~= a + (b + (c + (d + e))));
}

/// Seven byte strings one behind the other, put together from either end.
proof fn lemma_seven_parts(
    a: Seq<u8>,
    b: Seq<u8>,
    c: Seq<u8>,
    d: Seq<u8>,
    e: Seq<u8>,
    f: Seq<u8>,
    g: Seq<u8>,
)
    ensures
        a + b + c + d + e + f + g == a + (b + (c + (d + (e + (f + g))))),
{
    assert(a + b + c + d + e + f + g =~= a + b + c + d + e + (f + g));
    assert(a + b + c + d + e + (f + g) =~= a + b + c + d + (e + (f + g)));
    assert(a + b + c + d + (e + (f + g)) =~= a + b + c + (d + (e + (f + g))));
    assert(a + b + c + (d + (e + (f + g))) =~= a + b + (c + (d + (e + (f + g)))));
    assert(a + b + (c + (d + (e + (f + g)))) =~= a + (b + (c + (d + (e + (f + g))))));
}

/// A request up to where its range starts.
spec fn request_head(m: BlockRequestView) -> BlockRequestView {
    BlockRequestView { fields: m.fields, from_block: m.from_block, ..empty_request() }
}

/// Reading the fields of a request, and where its range starts.
#[verifier::spinoff_prover]
proof fn lemma_request_head(m: BlockRequestView, rest: Seq<u8>)
    requires
        request_fits(m),
    ensures
        request_with_fields(
            empty_request(),
            number_or_nothing(1, m.fields as nat) + (from_block_field(m.from_block) + rest),
        ) == request_with_fields(request_head(m), rest),
{
    let b2 = from_block_field(m.from_block) + rest;
    let m1 = BlockRequestView { fields: m.fields, ..empty_request() };
    lemma_request_number(empty_request(), 1, m.fields as nat, b2);
    match m.from_block {
        Some(FromBlockView::Hash(bytes)) => {
            lemma_request_bytes(m1, 2, bytes, rest);
        },
        Some(FromBlockView::Number(bytes)) => {
            lemma_request_bytes(m1, 3, bytes, rest);
        },
        None => {
            assert(b2 =~= rest);
            assert(m1 == request_head(m));
        },
    }
}

/// Reading where the range of a request ends, which way it runs, and how long it is.
#[verifier::spinoff_prover]
proof fn lemma_request_tail(m: BlockRequestView, rest: Seq<u8>)
    requires
        request_fits(m),
    ensures
        request_with_fields(
            request_head(m),
            bytes_or_nothing(4, m.to_block) + (number_or_nothing(5, sign_extended(m.direction)) + (
            number_or_nothing(6, m.max_blocks as nat) + rest)),
        ) == request_with_fields(m, rest),
{
    let b6 = number_or_nothing(6, m.max_blocks as nat) + rest;
    let b5 = number_or_nothing(5, sign_extended(m.direction)) + b6;
    let m2 = request_head(m);
    let m4 = BlockRequestView { to_block: m.to_block, ..m2 };
    assert(request_with_fields(m2, bytes_or_nothing(4, m.to_block) + b5) == request_with_fields(
        m4,
        b5,
    )) by {
        if m.to_block.len() == 0 {
            assert(m.to_block =~= Seq::<u8>::empty());
            assert(bytes_or_nothing(4, m.to_block) + b5 =~= b5);
        } else {
            lemma_request_bytes(m2, 4, m.to_block, b5);
        }
    }
    let m5 = BlockRequestView { direction: m.direction, ..m4 };
    assert(low_i32(sign_extended(m.direction)) == m.direction);
    lemma_request_number(m4, 5, sign_extended(m.direction), b6);
    lemma_request_number(m5, 6, m.max_blocks as nat, rest);
    assert(BlockRequestView { max_blocks: m.max_blocks, ..m5 } == m);
}

/// Decoding the encoding of a request gives the request back.
#[verifier::spinoff_prover]
pub proof fn request_round_trip(m: BlockRequestView)
    requires
        request_fits(m),
    ensures
        request_of(request_bytes(m)) == Some(m),
{
    let f1 = number_or_nothing(1, m.fields as nat);
    let f2 = from_block_field(m.from_block);
    let f4 = bytes_or_nothing(4, m.to_block);
    let f5 = number_or_nothing(5, sign_extended(m.direction));
    let f6 = number_or_nothing(6, m.max_blocks as nat);
    let tail = f4 + (f5 + (f6 + Seq::<u8>::empty()));
    assert(request_bytes(m) == f1 + (f2 + tail)) by {
        lemma_five_parts(f1, f2, f4, f5, f6);
        assert(f6 + Seq::<u8>::empty() =~= f6);
    }
    lemma_request_head(m, tail);
    lemma_request_tail(m, Seq::empty());
}

/// How long the byte strings of a block may be: what a 64-bit length counts.
pub open spec fn block_fits(m: BlockDataView) -> bool {
    &&& m.hash.len() < two_64()
    &&& m.header.len() < two_64()
    &&& forall|i: int| 0 <= i < m.body.len() ==> (#[trigger] m.body[i]).len() < two_64()
    &&& m.receipt.len() < two_64()
    &&& m.message_queue.len() < two_64()
    &&& m.justification.len() < two_64()
}

/// Reading a block whose next field is bytes.
proof fn lemma_block_bytes(m: BlockDataView, tag: nat, value: Seq<u8>, rest: Seq<u8>)
    requires
        1 <= tag <= 6,
        value.len() < two_64(),
    ensures
        block_with_fields(m, bytes_field(tag, value) + rest) == block_with_fields(
            if tag == 1 {
                BlockDataView { hash: value, ..m }
            } else if tag == 2 {
                BlockDataView { header: value, ..m }
            } else if tag == 3 {
                BlockDataView { body: m.body.push(value), ..m }
            } else if tag == 4 {
                BlockDataView { receipt: value, ..m }
            } else if tag == 5 {
                BlockDataView { message_queue: value, ..m }
            } else {
                BlockDataView { justification: value, ..m }
            },
            rest,
        ),
{
    lemma_bytes_field(tag, value, rest);
    assert((bytes_field(tag, value) + rest).len() > rest.len());
}

/// Reading a block whose next field is bytes, or left out for being empty.
proof fn lemma_block_optional(m: BlockDataView, tag: nat, value: Seq<u8>, rest: Seq<u8>)
    requires
        tag == 1 || tag == 2 || tag == 4 || tag == 5 || tag == 6,
        value.len() < two_64(),
        tag == 1 ==> m.hash.len() == 0,
        tag == 2 ==> m.header.len() == 0,
        tag == 4 ==> m.receipt.len() == 0,
        tag == 5 ==> m.message_queue.len() == 0,
        tag == 6 ==> m.justification.len() == 0,
    ensures
        block_with_fields(m, bytes_or_nothing(tag, value) + rest) == block_with_fields(
            if tag == 1 {
                BlockDataView { hash: value, ..m }
            } else if tag == 2 {
                BlockDataView { header: value, ..m }
            } else if tag == 4 {
                BlockDataView { receipt: value, ..m }
            } else if tag == 5 {
                BlockDataView { message_queue: value, ..m }
            } else {
                BlockDataView { justification: value, ..m }
            },
            rest,
        ),
{
    if value.len() == 0 {
        assert(bytes_or_nothing(tag, value) + rest =~= rest);
        let old_value = if tag == 1 {
            m.hash
        } else if tag == 2 {
            m.header
        } else if tag == 4 {
            m.receipt
        } else if tag == 5 {
            m.message_queue
        } else {
            m.justification
        };
        assert(old_value =~= value);
    } else {
        lemma_block_bytes(m, tag, value, rest);
    }
}

/// Reading a block whose next fields are its extrinsics.
proof fn lemma_block_body(m: BlockDataView, values: Seq<Seq<u8>>, rest: Seq<u8>)
    requires
        forall|i: int| 0 <= i < values.len() ==> (#[trigger] values[i]).len() < two_64(),
    ensures
        block_with_fields(m, repeated_field(3, values) + rest) == block_with_fields(
            BlockDataView { body: m.body + values, ..m },
            rest,
        ),
    decreases values.len(),
{
    if values.len() == 0 {
        assert(repeated_field(3, values) + rest =~= rest);
        assert(m.body + values =~= m.body);
    } else {
        let front = values.drop_last();
        let next = bytes_field(3, values.last()) + rest;
        assert(repeated_field(3, values) + rest =~= repeated_field(3, front) + next);
        assert forall|i: int| 0 <= i < front.len() implies (#[trigger] front[i]).len()
            < two_64() by {
            assert(front[i] == values[i]);
        }
        lemma_block_body(m, front, next);
        lemma_block_bytes(BlockDataView { body: m.body + front, ..m }, 3, values.last(), rest);
        assert((m.body + front).push(values.last()) =~= m.body + values);
    }
}

/// A block up to its body.
spec fn block_head(m: BlockDataView) -> BlockDataView {
    BlockDataView { hash: m.hash, header: m.header, body: m.body, ..empty_block() }
}

/// Reading the hash, the header and the body of a block.
#[verifier::spinoff_prover]
proof fn lemma_block_head(m: BlockDataView, rest: Seq<u8>)
    requires
        block_fits(m),
    ensures
        block_with_fields(
            empty_block(),
            bytes_or_nothing(1, m.hash) + (bytes_or_nothing(2, m.header) + (repeated_field(
                3,
                m.body,
            ) + rest)),
        ) == block_with_fields(block_head(m), rest),
{
    let b3 = repeated_field(3, m.body) + rest;
    let b2 = bytes_or_nothing(2, m.header) + b3;
    let m1 = BlockDataView { hash: m.hash, ..empty_block() };
    lemma_block_optional(empty_block(), 1, m.hash, b2);
    let m2 = BlockDataView { header: m.header, ..m1 };
    lemma_block_optional(m1, 2, m.header, b3);
    lemma_block_body(m2, m.body, rest);
    assert(m2.body + m.body =~= m.body);
    assert(BlockDataView { body: m2.body + m.body, ..m2 } == block_head(m));
}

/// Reading the flag of a block, which comes last.
#[verifier::spinoff_prover]
proof fn lemma_block_flag(m: BlockDataView)
    ensures
        block_with_fields(
            BlockDataView { is_empty_justification: false, ..m },
            number_or_nothing(7, if m.is_empty_justification { 1 } else { 0 }),
        ) == Some(m),
{
    let before = BlockDataView { is_empty_justification: false, ..m };
    if m.is_empty_justification {
        let bytes = number_field(7, 1);
        lemma_number_field(7, 1, Seq::empty());
        assert(bytes + Seq::<u8>::empty() =~= bytes);
        assert(block_with_fields(before, bytes) == block_with_fields(m, Seq::empty()));
    } else {
        assert(before == m);
    }
}

/// Reading what follows the body of a block.
#[verifier::spinoff_prover]
proof fn lemma_block_tail(m: BlockDataView, rest: Seq<u8>)
    requires
        block_fits(m),
    ensures
        block_with_fields(
            block_head(m),
            bytes_or_nothing(4, m.receipt) + (bytes_or_nothing(5, m.message_queue) + (
            bytes_or_nothing(6, m.justification) + rest)),
        ) == block_with_fields(BlockDataView { is_empty_justification: false, ..m }, rest),
{
    let b6 = bytes_or_nothing(6, m.justification) + rest;
    let b5 = bytes_or_nothing(5, m.message_queue) + b6;
    let m3 = block_head(m);
    let m4 = BlockDataView { receipt: m.receipt, ..m3 };
    lemma_block_optional(m3, 4, m.receipt, b5);
    let m5 = BlockDataView { message_queue: m.message_queue, ..m4 };
    lemma_block_optional(m4, 5, m.message_queue, b6);
    lemma_block_optional(m5, 6, m.justification, rest);
    assert(BlockDataView { justification: m.justification, ..m5 } == BlockDataView {
        is_empty_justification: false,
        ..m
    });
}

/// Decoding the encoding of a block gives the block back.
#[verifier::spinoff_prover]
proof fn lemma_block_round_trip(m: BlockDataView)
    requires
        block_fits(m),
    ensures
        block_of(block_bytes(m)) == Some(m),
{
    let flag = number_or_nothing(7, if m.is_empty_justification { 1 } else { 0 });
    let tail = bytes_or_nothing(4, m.receipt) + (bytes_or_nothing(5, m.message_queue) + (
    bytes_or_nothing(6, m.justification) + flag));
    let bytes = bytes_or_nothing(1, m.hash) + (bytes_or_nothing(2, m.header) + (repeated_field(
        3,
        m.body,
    ) + tail));
    assert(block_bytes(m) == bytes) by {
        lemma_seven_parts(
            bytes_or_nothing(1, m.hash),
            bytes_or_nothing(2, m.header),
            repeated_field(3, m.body),
            bytes_or_nothing(4, m.receipt),
            bytes_or_nothing(5, m.message_queue),
            bytes_or_nothing(6, m.justification),
            flag,
        );
    }
    lemma_block_head(m, tail);
    lemma_block_tail(m, flag);
    lemma_block_flag(m);
}

/// Whether every block of a response can be counted with 64-bit lengths.
pub open spec fn response_fits(blocks: Seq<BlockDataView>) -> bool {
    forall|i: int|
        0 <= i < blocks.len() ==> block_fits(#[trigger] blocks[i]) && block_bytes(blocks[i]).len()
            < two_64()
}

proof fn lemma_response(before: Seq<BlockDataView>, blocks: Seq<BlockDataView>, rest: Seq<u8>)
    requires
        response_fits(blocks),
    ensures
        response_with_fields(before, response_bytes(blocks) + rest) == response_with_fields(
            before + blocks,
            rest,
        ),
    decreases blocks.len(),
{
    if blocks.len() == 0 {
        assert(response_bytes(blocks) + rest =~= rest);
        assert(before + blocks =~= before);
    } else {
        let front = blocks.drop_last();
        let block = blocks.last();
        let bytes = block_bytes(block);
        let next = bytes_field(1, bytes) + rest;
        assert(response_bytes(blocks) + rest =~= response_bytes(front) + next);
        assert forall|i: int| 0 <= i < front.len() implies block_fits(#[trigger] front[i])
            && block_bytes(front[i]).len() < two_64() by {
            assert(front[i] == blocks[i]);
        }
        lemma_response(before, front, next);
        assert(block == blocks[blocks.len() - 1]);
        lemma_block_round_trip(block);
        lemma_bytes_field(1, bytes, rest);
        assert(next.len() > rest.len());
        assert((before + front).push(block) =~= before + blocks);
    }
}

/// Decoding the encoding of a response gives its blocks back, in order.
pub proof fn response_round_trip(blocks: Seq<BlockDataView>)
    requires
        response_fits(blocks),
    ensures
        response_of(response_bytes(blocks)) == Some(blocks),
{
    lemma_response(Seq::empty(), blocks, Seq::empty());
    assert(response_bytes(blocks) + Seq::<u8>::empty() =~= response_bytes(blocks));
    assert(Seq::<BlockDataView>::empty() + blocks =~= blocks);
}

/// Reading on behind the encoding of a request.
#[verifier::spinoff_prover]
proof fn lemma_request_prefix(m: BlockRequestView, rest: Seq<u8>)
    requires
        request_fits(m),
    ensures
        request_of(request_bytes(m) + rest) == request_with_fields(m, rest),
{
    let f1 = number_or_nothing(1, m.fields as nat);
    let f2 = from_block_field(m.from_block);
    let f4 = bytes_or_nothing(4, m.to_block);
    let f5 = number_or_nothing(5, sign_extended(m.direction));
    let f6 = number_or_nothing(6, m.max_blocks as nat);
    let tail = f4 + (f5 + (f6 + rest));
    assert(request_bytes(m) + rest == f1 + (f2 + tail)) by {
        assert(request_bytes(m) + rest =~= f1 + f2 + f4 + f5 + (f6 + rest));
        lemma_five_parts(f1, f2, f4, f5, f6 + rest);
    }
    lemma_request_head(m, tail);
    lemma_request_tail(m, rest);
}

/// Reading on behind the encoding of a block.
#[verifier::spinoff_prover]
proof fn lemma_block_prefix(m: BlockDataView, rest: Seq<u8>)
    requires
        block_fits(m),
    ensures
        block_of(block_bytes(m) + rest) == block_with_fields(m, rest),
{
    let f1 = bytes_or_nothing(1, m.hash);
    let f2 = bytes_or_nothing(2, m.header);
    let f3 = repeated_field(3, m.body);
    let f4 = bytes_or_nothing(4, m.receipt);
    let f5 = bytes_or_nothing(5, m.message_queue);
    let f6 = bytes_or_nothing(6, m.justification);
    let flag = number_or_nothing(7, if m.is_empty_justification { 1 } else { 0 });
    let tail = f4 + (f5 + (f6 + (flag + rest)));
    assert(block_bytes(m) + rest == f1 + (f2 + (f3 + tail))) by {
        assert(block_bytes(m) + rest =~= f1 + f2 + f3 + f4 + f5 + f6 + (flag + rest));
        lemma_seven_parts(f1, f2, f3, f4, f5, f6, flag + rest);
    }
    lemma_block_head(m, tail);
    lemma_block_tail(m, flag + rest);
    let before = BlockDataView { is_empty_justification: false, ..m };
    if m.is_empty_justification {
        lemma_number_field(7, 1, rest);
        assert((number_field(7, 1) + rest).len() > rest.len());
        assert(block_with_fields(before, flag + rest) == block_with_fields(m, rest));
    } else {
        assert(flag + rest =~= rest);
        assert(before == m);
    }
}

/// How a request looks on the wire. The wanted parts stand behind the byte 0x08, a hash to
/// start at behind 0x12 and a number to start at behind 0x1a, the hash to end at behind 0x22,
/// the direction behind 0x28 and the limit behind 0x30, in this order; what is zero or empty
/// is left out, but not where the range starts.
pub proof fn requests_on_the_wire(m: BlockRequestView)
    requires
        m.direction >= 0,
    ensures
        request_bytes(m) == (if m.fields == 0 {
            Seq::empty()
        } else {
            seq![0x08u8] + varint(m.fields as nat)
        }) + (match m.from_block {
            Some(FromBlockView::Hash(bytes)) => seq![0x12u8] + varint(bytes.len()) + bytes,
            Some(FromBlockView::Number(bytes)) => seq![0x1au8] + varint(bytes.len()) + bytes,
            None => Seq::empty(),
        }) + (if m.to_block.len() == 0 {
            Seq::empty()
        } else {
            seq![0x22u8] + varint(m.to_block.len()) + m.to_block
        }) + (if m.direction == 0 {
            Seq::empty()
        } else {
            seq![0x28u8] + varint(m.direction as nat)
        }) + (if m.max_blocks == 0 {
            Seq::empty()
        } else {
            seq![0x30u8] + varint(m.max_blocks as nat)
        }),
{
}

/// How a block looks on the wire: the hash behind the byte 0x0a, the header behind 0x12, each
/// extrinsic behind 0x1a, the receipt behind 0x22, the message queue behind 0x2a, the
/// justification behind 0x32 and the flag behind 0x38, in this order; what is empty is left
/// out, but not an extrinsic. In a response each block stands behind 0x0a.
pub proof fn blocks_on_the_wire(
    m: BlockDataView,
    extrinsic: Seq<u8>,
    blocks: Seq<BlockDataView>,
)
    ensures
        block_bytes(m) == (if m.hash.len() == 0 {
            Seq::empty()
        } else {
            seq![0x0au8] + varint(m.hash.len()) + m.hash
        }) + (if m.header.len() == 0 {
            Seq::empty()
        } else {
            seq![0x12u8] + varint(m.header.len()) + m.header
        }) + repeated_field(3, m.body) + (if m.receipt.len() == 0 {
            Seq::empty()
        } else {
            seq![0x22u8] + varint(m.receipt.len()) + m.receipt
        }) + (if m.message_queue.len() == 0 {
            Seq::empty()
        } else {
            seq![0x2au8] + varint(m.message_queue.len()) + m.message_queue
        }) + (if m.justification.len() == 0 {
            Seq::empty()
        } else {
            seq![0x32u8] + varint(m.justification.len()) + m.justification
        }) + (if m.is_empty_justification {
            seq![0x38u8, 0x01u8]
        } else {
            Seq::empty()
        }),
        repeated_field(3, Seq::empty()).len() == 0,
        repeated_field(3, m.body.push(extrinsic)) == repeated_field(3, m.body) + (seq![0x1au8]
            + varint(extrinsic.len()) + extrinsic),
        response_bytes(Seq::empty()).len() == 0,
        response_bytes(blocks.push(m)) == response_bytes(blocks) + (seq![0x0au8] + varint(
            block_bytes(m).len(),
        ) + block_bytes(m)),
{
    assert(m.body.push(extrinsic).drop_last() =~= m.body);
    assert(blocks.push(m).drop_last() =~= blocks);
    assert(number_field(7, 1) =~= seq![0x38u8, 0x01u8]);
}

/// A field of bytes starts with one byte for its key.
proof fn lemma_bytes_key(bytes: Seq<u8>, tag: nat, first: u8)
    requires
        tag < 16,
        first == 8 * tag + 2,
    ensures
        bytes_field(tag, bytes) == seq![first] + (varint(bytes.len()) + bytes),
{
    assert(key(tag, WireType::LengthDelimited) =~= seq![first]);
    assert(bytes_field(tag, bytes) =~= seq![first] + (varint(bytes.len()) + bytes));
}

/// A field of a number starts with one byte for its key.
proof fn lemma_number_key(v: nat, tag: nat, first: u8)
    requires
        tag < 16,
        first == 8 * tag,
    ensures
        number_field(tag, v) == seq![first] + varint(v),
{
    assert(key(tag, WireType::Varint) =~= seq![first]);
}

/// Reading a number behind the encoding of a request.
#[verifier::spinoff_prover]
proof fn lemma_request_then_number(m: BlockRequestView, tag: nat, v: nat)
    requires
        request_fits(m),
        tag == 1 || tag == 5 || tag == 6,
        v < two_64(),
    ensures
        request_of(request_bytes(m) + number_field(tag, v)) == Some(
            if tag == 1 {
                BlockRequestView { fields: low_u32(v) as u32, ..m }
            } else if tag == 5 {
                BlockRequestView { direction: low_i32(v) as i32, ..m }
            } else {
                BlockRequestView { max_blocks: low_u32(v) as u32, ..m }
            },
        ),
{
    let field = number_field(tag, v);
    lemma_request_prefix(m, field);
    lemma_number_field(tag, v, Seq::empty());
    assert(field + Seq::<u8>::empty() =~= field);
    reveal_with_fuel(request_with_fields, 2);
}

/// Reading bytes behind the encoding of a request.
#[verifier::spinoff_prover]
proof fn lemma_request_then_bytes(m: BlockRequestView, tag: nat, bytes: Seq<u8>)
    requires
        request_fits(m),
        2 <= tag <= 4,
        bytes.len() < two_64(),
    ensures
        request_of(request_bytes(m) + bytes_field(tag, bytes)) == Some(
            if tag == 2 {
                BlockRequestView { from_block: Some(FromBlockView::Hash(bytes)), ..m }
            } else if tag == 3 {
                BlockRequestView { from_block: Some(FromBlockView::Number(bytes)), ..m }
            } else {
                BlockRequestView { to_block: bytes, ..m }
            },
        ),
{
    let field = bytes_field(tag, bytes);
    lemma_request_prefix(m, field);
    lemma_request_bytes(m, tag, bytes, Seq::empty());
    assert(field + Seq::<u8>::empty() =~= field);
}

/// Reading bytes behind the encoding of a block.
#[verifier::spinoff_prover]
proof fn lemma_block_then_bytes(m: BlockDataView, tag: nat, bytes: Seq<u8>)
    requires
        block_fits(m),
        1 <= tag <= 6,
        bytes.len() < two_64(),
    ensures
        block_of(block_bytes(m) + bytes_field(tag, bytes)) == Some(
            if tag == 1 {
                BlockDataView { hash: bytes, ..m }
            } else if tag == 2 {
                BlockDataView { header: bytes, ..m }
            } else if tag == 3 {
                BlockDataView { body: m.body.push(bytes), ..m }
            } else if tag == 4 {
                BlockDataView { receipt: bytes, ..m }
            } else if tag == 5 {
                BlockDataView { message_queue: bytes, ..m }
            } else {
                BlockDataView { justification: bytes, ..m }
            },
        ),
{
    let field = bytes_field(tag, bytes);
    lemma_block_prefix(m, field);
    lemma_block_bytes(m, tag, bytes, Seq::empty());
    assert(field + Seq::<u8>::empty() =~= field);
}

/// Reading the flag behind the encoding of a block.
#[verifier::spinoff_prover]
proof fn lemma_block_then_flag(m: BlockDataView, v: nat)
    requires
        block_fits(m),
        v < two_64(),
    ensures
        block_of(block_bytes(m) + number_field(7, v)) == Some(
            BlockDataView { is_empty_justification: v != 0, ..m },
        ),
{
    let field = number_field(7, v);
    lemma_block_prefix(m, field);
    lemma_number_field(7, v, Seq::empty());
    assert(field + Seq::<u8>::empty() =~= field);
    reveal_with_fuel(block_with_fields, 2);
}

/// What comes later in a request takes the place of what came before, and leaves everything
/// else as it was.
#[verifier::spinoff_prover]
pub proof fn later_parts_of_a_request_count(m: BlockRequestView, number: u32, bytes: Seq<u8>)
    requires
        request_fits(m),
        bytes.len() < 0x1_0000_0000_0000_0000,
    ensures
        ({
            let text = varint(bytes.len()) + bytes;
            let encoded = request_bytes(m);
            &&& request_of(encoded + (seq![0x08u8] + varint(number as nat))) == Some(
                BlockRequestView { fields: number, ..m },
            )
            &&& request_of(encoded + (seq![0x12u8] + text)) == Some(
                BlockRequestView { from_block: Some(FromBlockView::Hash(bytes)), ..m },
            )
            &&& request_of(encoded + (seq![0x1au8] + text)) == Some(
                BlockRequestView { from_block: Some(FromBlockView::Number(bytes)), ..m },
            )
            &&& request_of(encoded + (seq![0x22u8] + text)) == Some(
                BlockRequestView { to_block: bytes, ..m },
            )
            &&& number <= 0x7fff_ffff ==> request_of(
                encoded + (seq![0x28u8] + varint(number as nat)),
            ) == Some(BlockRequestView { direction: number as i32, ..m })
            &&& request_of(encoded + (seq![0x30u8] + varint(number as nat))) == Some(
                BlockRequestView { max_blocks: number, ..m },
            )
        }),
{
    let v = number as nat;
    let text = varint(bytes.len()) + bytes;
    let encoded = request_bytes(m);
    assert(request_of(encoded + (seq![0x12u8] + text)) == Some(
        BlockRequestView { from_block: Some(FromBlockView::Hash(bytes)), ..m },
    )) by {
        lemma_request_then_bytes(m, 2, bytes);
        lemma_bytes_key(bytes, 2, 0x12u8);
    }
    assert(request_of(encoded + (seq![0x1au8] + text)) == Some(
        BlockRequestView { from_block: Some(FromBlockView::Number(bytes)), ..m },
    )) by {
        lemma_request_then_bytes(m, 3, bytes);
        lemma_bytes_key(bytes, 3, 0x1au8);
    }
    assert(request_of(encoded + (seq![0x22u8] + text)) == Some(
        BlockRequestView { to_block: bytes, ..m },
    )) by {
        lemma_request_then_bytes(m, 4, bytes);
        lemma_bytes_key(bytes, 4, 0x22u8);
    }
    assert(request_of(encoded + (seq![0x08u8] + varint(v))) == Some(
        BlockRequestView { fields: number, ..m },
    )) by {
        lemma_request_then_number(m, 1, v);
        lemma_number_key(v, 1, 0x08u8);
    }
    assert(number <= 0x7fff_ffff ==> request_of(encoded + (seq![0x28u8] + varint(v))) == Some(
        BlockRequestView { direction: number as i32, ..m },
    )) by {
        lemma_request_then_number(m, 5, v);
        lemma_number_key(v, 5, 0x28u8);
    }
    assert(request_of(encoded + (seq![0x30u8] + varint(v))) == Some(
        BlockRequestView { max_blocks: number, ..m },
    )) by {
        lemma_request_then_number(m, 6, v);
        lemma_number_key(v, 6, 0x30u8);
    }
}

/// What comes later in a block takes the place of what came before, but for an extrinsic,
/// which is added to those before it; everything else is left as it was.
#[verifier::spinoff_prover]
pub proof fn later_parts_of_a_block_count(m: BlockDataView, number: u32, bytes: Seq<u8>)
    requires
        block_fits(m),
        bytes.len() < 0x1_0000_0000_0000_0000,
    ensures
        ({
            let text = varint(bytes.len()) + bytes;
            let encoded = block_bytes(m);
            &&& block_of(encoded + (seq![0x0au8] + text)) == Some(BlockDataView { hash: bytes, ..m })
            &&& block_of(encoded + (seq![0x12u8] + text)) == Some(
                BlockDataView { header: bytes, ..m },
            )
            &&& block_of(encoded + (seq![0x1au8] + text)) == Some(
                BlockDataView { body: m.body.push(bytes), ..m },
            )
            &&& block_of(encoded + (seq![0x22u8] + text)) == Some(
                BlockDataView { receipt: bytes, ..m },
            )
            &&& block_of(encoded + (seq![0x2au8] + text)) == Some(
                BlockDataView { message_queue: bytes, ..m },
            )
            &&& block_of(encoded + (seq![0x32u8] + text)) == Some(
                BlockDataView { justification: bytes, ..m },
            )
            &&& block_of(encoded + (seq![0x38u8] + varint(number as nat))) == Some(
                BlockDataView { is_empty_justification: number != 0, ..m },
            )
        }),
{
    let text = varint(bytes.len()) + bytes;
    let encoded = block_bytes(m);
    assert(block_of(encoded + (seq![0x0au8] + text)) == Some(BlockDataView { hash: bytes, ..m })) by {
        lemma_block_then_bytes(m, 1, bytes);
        lemma_bytes_key(bytes, 1, 0x0au8);
    }
    assert(block_of(encoded + (seq![0x12u8] + text)) == Some(BlockDataView { header: bytes, ..m })) by {
        lemma_block_then_bytes(m, 2, bytes);
        lemma_bytes_key(bytes, 2, 0x12u8);
    }
    assert(block_of(encoded + (seq![0x1au8] + text)) == Some(BlockDataView { body: m.body.push(bytes), ..m })) by {
        lemma_block_then_bytes(m, 3, bytes);
        lemma_bytes_key(bytes, 3, 0x1au8);
    }
    assert(block_of(encoded + (seq![0x22u8] + text)) == Some(BlockDataView { receipt: bytes, ..m })) by {
        lemma_block_then_bytes(m, 4, bytes);
        lemma_bytes_key(bytes, 4, 0x22u8);
    }
    assert(block_of(encoded + (seq![0x2au8] + text)) == Some(BlockDataView { message_queue: bytes, ..m })) by {
        lemma_block_then_bytes(m, 5, bytes);
        lemma_bytes_key(bytes, 5, 0x2au8);
    }
    assert(block_of(encoded + (seq![0x32u8] + text)) == Some(BlockDataView { justification: bytes, ..m })) by {
        lemma_block_then_bytes(m, 6, bytes);
        lemma_bytes_key(bytes, 6, 0x32u8);
    }
    assert(block_of(encoded + (seq![0x38u8] + varint(number as nat))) == Some(
        BlockDataView { is_empty_justification: number != 0, ..m },
    )) by {
        lemma_block_then_flag(m, number as nat);
        lemma_number_key(number as nat, 7, 0x38u8);
    }
}

/// A number or a byte string under a tag that a request, a block or a response does not
/// know is passed over, wherever it stands.
pub proof fn unknown_parts_are_passed_over(
    request: BlockRequestView,
    block: BlockDataView,
    blocks: Seq<BlockDataView>,
    tag: nat,
    number: nat,
    bytes: Seq<u8>,
    rest: Seq<u8>,
)
    requires
        tag < 0x2000_0000,
        number < 0x1_0000_0000_0000_0000,
        bytes.len() < 0x1_0000_0000_0000_0000,
    ensures
        ({
            let a = varint(8 * tag) + varint(number) + rest;
            let b = varint(8 * tag + 2) + varint(bytes.len()) + bytes + rest;
            &&& tag >= 7 ==> request_with_fields(request, a) == request_with_fields(request, rest)
            &&& tag >= 7 ==> request_with_fields(request, b) == request_with_fields(request, rest)
            &&& tag >= 8 ==> block_with_fields(block, a) == block_with_fields(block, rest)
            &&& tag >= 8 ==> block_with_fields(block, b) == block_with_fields(block, rest)
            &&& tag >= 2 ==> response_with_fields(blocks, a) == response_with_fields(blocks, rest)
            &&& tag >= 2 ==> response_with_fields(blocks, b) == response_with_fields(blocks, rest)
        }),
{
    if tag >= 2 {
        lemma_number_field(tag, number, rest);
        lemma_bytes_field(tag, bytes, rest);
        assert((number_field(tag, number) + rest).len() > rest.len());
        assert((bytes_field(tag, bytes) + rest).len() > rest.len());
    }
}

/// A number where bytes are due, or bytes where a number is due, makes a request or a block
/// unreadable, whatever follows.
pub proof fn parts_of_another_kind_are_refused(
    request: BlockRequestView,
    block: BlockDataView,
    number: nat,
    bytes: Seq<u8>,
    rest: Seq<u8>,
)
    requires
        number < 0x1_0000_0000_0000_0000,
        bytes.len() < 0x1_0000_0000_0000_0000,
    ensures
        ({
            let a = varint(number) + rest;
            let b = varint(bytes.len()) + bytes + rest;
            &&& request_with_fields(request, seq![0x0au8] + b) is None
            &&& request_with_fields(request, seq![0x10u8] + a) is None
            &&& request_with_fields(request, seq![0x18u8] + a) is None
            &&& request_with_fields(request, seq![0x20u8] + a) is None
            &&& request_with_fields(request, seq![0x2au8] + b) is None
            &&& request_with_fields(request, seq![0x32u8] + b) is None
            &&& block_with_fields(block, seq![0x08u8] + a) is None
            &&& block_with_fields(block, seq![0x10u8] + a) is None
            &&& block_with_fields(block, seq![0x18u8] + a) is None
            &&& block_with_fields(block, seq![0x20u8] + a) is None
            &&& block_with_fields(block, seq![0x28u8] + a) is None
            &&& block_with_fields(block, seq![0x30u8] + a) is None
            &&& block_with_fields(block, seq![0x3au8] + b) is None
        }),
{
    let a = varint(number) + rest;
    let b = varint(bytes.len()) + bytes + rest;
    assert forall|tag: nat| 1 <= tag <= 15 implies key_of(
        #[trigger] key(tag, WireType::Varint) + a,
    ) == Some((tag, WireType::Varint, a)) by {
        lemma_key_round_trip(tag, WireType::Varint, a);
    }
    assert forall|tag: nat| 1 <= tag <= 15 implies key_of(
        #[trigger] key(tag, WireType::LengthDelimited) + b,
    ) == Some((tag, WireType::LengthDelimited, b)) by {
        lemma_key_round_trip(tag, WireType::LengthDelimited, b);
    }
    assert(key(1, WireType::Varint) == seq![0x08u8]);
    assert(key(2, WireType::Varint) == seq![0x10u8]);
    assert(key(3, WireType::Varint) == seq![0x18u8]);
    assert(key(4, WireType::Varint) == seq![0x20u8]);
    assert(key(5, WireType::Varint) == seq![0x28u8]);
    assert(key(6, WireType::Varint) == seq![0x30u8]);
    assert(key(1, WireType::LengthDelimited) == seq![0x0au8]);
    assert(key(5, WireType::LengthDelimited) == seq![0x2au8]);
    assert(key(6, WireType::LengthDelimited) == seq![0x32u8]);
    assert(key(7, WireType::LengthDelimited) == seq![0x3au8]);
}

/// Messages stand for what their parts hold.
pub proof fn messages_stand_for_their_parts(
    request: BlockRequest,
    block: BlockData,
    response: BlockResponse,
    i: int,
)
    ensures
        request@.fields == request.fields,
        request.from_block is None <==> request@.from_block is None,
        request.from_block matches Some(FromBlock::Hash(bytes)) ==> request@.from_block == Some(
            FromBlockView::Hash(bytes@),
        ),
        request.from_block matches Some(FromBlock::Number(bytes)) ==> request@.from_block == Some(
            FromBlockView::Number(bytes@),
        ),
        request@.to_block == request.to_block@,
        request@.direction == request.direction,
        request@.max_blocks == request.max_blocks,
        block@.hash == block.hash@,
        block@.header == block.header@,
        block@.body.len() == block.body@.len(),
        0 <= i < block.body@.len() ==> block@.body[i] == block.body@[i]@,
        block@.receipt == block.receipt@,
        block@.message_queue == block.message_queue@,
        block@.justification == block.justification@,
        block@.is_empty_justification == block.is_empty_justification,
        response@.len() == response.blocks@.len(),
        0 <= i < response@.len() ==> response@[i] == response.blocks@[i]@,
{
}

/// A block in a response is added behind those before it, if it can be read; else the
/// response cannot be read either, whatever follows.
pub proof fn responses_hold_readable_blocks(
    blocks: Seq<BlockDataView>,
    bytes: Seq<u8>,
    rest: Seq<u8>,
)
    requires
        bytes.len() < 0x1_0000_0000_0000_0000,
    ensures
        ({
            let b = seq![0x0au8] + varint(bytes.len()) + bytes + rest;
            &&& block_of(bytes) is None ==> response_with_fields(blocks, b) is None
            &&& block_of(bytes) matches Some(block) ==> response_with_fields(blocks, b)
                == response_with_fields(blocks.push(block), rest)
        }),
        response_of(Seq::empty()) == Some(Seq::<BlockDataView>::empty()),
        block_of(Seq::empty()) == Some(
            BlockDataView {
                hash: Seq::empty(),
                header: Seq::empty(),
                body: Seq::empty(),
                receipt: Seq::empty(),
                message_queue: Seq::empty(),
                justification: Seq::empty(),
                is_empty_justification: false,
            },
        ),
{
    lemma_bytes_field(1, bytes, rest);
    let b = seq![0x0au8] + varint(bytes.len()) + bytes + rest;
    assert(b =~= bytes_field(1, bytes) + rest);
    assert(b.len() > rest.len());
}

} // verus!
