//! The SCALE encodings of a request and of the blocks of a response.
use crate::block::{header_of, is_header, Header, HeaderView};
use crate::octets::{append_bytes, views};
use crate::protocol::net_protocol::{
    gBlockRequest, known_bits, optional_bytes, BlockAttributes, BlockData, BlockHash, BlockNumber,
    Direction, Extrinsic, FromBlock, ReceivedBlock,
};
use crate::scale::{
    bytes_at, decode_bytes, decode_hash, decode_id, decode_list, decode_number, encode_bytes,
    encode_hash, encode_id, encode_list, encode_number, fits_list, le_32, le_64,
    lemma_bytes_unique, lemma_fronts, lemma_id_unique, lemma_list_unique, lemma_number_read,
    lemma_number_unique, scale_bytes, scale_list, CodecError,
};
use vstd::prelude::*;
use vstd::slice::slice_subrange;

verus! {

/// What a request stands for.
#[verifier::ext_equal]
pub struct RequestView {
    pub id: u64,
    pub fields: u8,
    pub from: FromBlock<Seq<u8>, u32>,
    pub to: Option<Seq<u8>>,
    pub direction: Direction,
    pub max: Option<u32>,
}

/// What the start of a range stands for.
pub open spec fn from_view(from: FromBlock<BlockHash, BlockNumber>) -> FromBlock<Seq<u8>, u32> {
    match from {
        FromBlock::Hash(hash) => FromBlock::Hash(hash@),
        FromBlock::Number(number) => FromBlock::Number(number),
    }
}

/// The bytes of a hash that may be there.
pub open spec fn hash_view(hash: Option<BlockHash>) -> Option<Seq<u8>> {
    match hash {
        Some(hash) => Some(hash@),
        None => None,
    }
}

/// The byte strings of a list that may be there.
pub open spec fn optional_list(list: Option<Vec<Extrinsic>>) -> Option<Seq<Seq<u8>>> {
    match list {
        Some(list) => Some(views(list@)),
        None => None,
    }
}

/// What a header that may be there stands for.
pub open spec fn optional_header(header: Option<Header>) -> Option<HeaderView> {
    match header {
        Some(header) => Some(header@),
        None => None,
    }
}

impl View for gBlockRequest<BlockHash, BlockNumber> {
    type V = RequestView;

    open spec fn view(&self) -> RequestView {
        RequestView {
            id: self.id,
            fields: self.fields@,
            from: from_view(self.from),
            to: hash_view(self.to),
            direction: self.direction,
            max: self.max,
        }
    }
}

/// The byte that stands for a direction.
pub open spec fn direction_byte(direction: Direction) -> u8 {
    match direction {
        Direction::Ascending => 0,
        Direction::Descending => 1,
    }
}

/// The encoding of the start of a range: a byte for the variant, then the hash or the
/// number.
pub open spec fn scale_from(from: FromBlock<Seq<u8>, u32>) -> Seq<u8> {
    match from {
        FromBlock::Hash(hash) => seq![0u8] + hash,
        FromBlock::Number(number) => seq![1u8] + le_32(number as nat),
    }
}

/// Whether a hash that may be there has the length of one.
pub open spec fn is_optional_hash(hash: Option<Seq<u8>>) -> bool {
    hash matches Some(bytes) ==> bytes.len() == 32
}

/// Whether the start of a range is one.
pub open spec fn is_from(from: FromBlock<Seq<u8>, u32>) -> bool {
    from matches FromBlock::Hash(hash) ==> hash.len() == 32
}

/// The encoding of what may be there: a byte that tells whether it is, then its encoding.
pub open spec fn scale_optional(encoding: Option<Seq<u8>>) -> Seq<u8> {
    match encoding {
        Some(bytes) => seq![1u8] + bytes,
        None => seq![0u8],
    }
}

/// The encoding of a number that may be there.
pub open spec fn scale_optional_number(number: Option<u32>) -> Seq<u8> {
    scale_optional(
        match number {
            Some(number) => Some(le_32(number as nat)),
            None => None,
        },
    )
}

/// The encoding of a byte string that may be there.
pub open spec fn scale_optional_bytes(bytes: Option<Seq<u8>>) -> Seq<u8> {
    scale_optional(
        match bytes {
            Some(bytes) => Some(scale_bytes(bytes)),
            None => None,
        },
    )
}

/// The encoding of a list of byte strings that may be there.
pub open spec fn scale_optional_list(list: Option<Seq<Seq<u8>>>) -> Seq<u8> {
    scale_optional(
        match list {
            Some(list) => Some(scale_list(list)),
            None => None,
        },
    )
}

/// The encoding of a header that may be there.
pub open spec fn scale_optional_header(header: Option<HeaderView>) -> Seq<u8> {
    scale_optional(
        match header {
            Some(header) => Some(header.encoded),
            None => None,
        },
    )
}

/// The encoding of a request from its limit on.
pub open spec fn max_on(request: RequestView) -> Seq<u8> {
    scale_optional_number(request.max)
}

/// The encoding of a request from its direction on.
pub open spec fn direction_on(request: RequestView) -> Seq<u8> {
    seq![direction_byte(request.direction)] + max_on(request)
}

/// The encoding of a request from its end on.
pub open spec fn to_on(request: RequestView) -> Seq<u8> {
    scale_optional(request.to) + direction_on(request)
}

/// The encoding of a request from its start on.
pub open spec fn from_on(request: RequestView) -> Seq<u8> {
    scale_from(request.from) + to_on(request)
}

/// The encoding of a request from its parts on.
pub open spec fn fields_on(request: RequestView) -> Seq<u8> {
    seq![request.fields] + from_on(request)
}

/// The encoding of a request: its fields, one after the other.
pub open spec fn scale_request(request: RequestView) -> Seq<u8> {
    le_64(request.id as nat) + fields_on(request)
}

/// Whether a request is one: its parts are known, and its hashes are hashes.
pub open spec fn is_request(request: RequestView) -> bool {
    known_bits(request.fields) && is_from(request.from) && is_optional_hash(request.to)
}

/// The encoding of a block from its justification on.
pub open spec fn justification_on(block: ReceivedBlock) -> Seq<u8> {
    scale_optional_bytes(block.justification)
}

/// The encoding of a block from its message queue on.
pub open spec fn message_queue_on(block: ReceivedBlock) -> Seq<u8> {
    scale_optional_bytes(block.message_queue) + justification_on(block)
}

/// The encoding of a block from its receipt on.
pub open spec fn receipt_on(block: ReceivedBlock) -> Seq<u8> {
    scale_optional_bytes(block.receipt) + message_queue_on(block)
}

/// The encoding of a block from its body on.
pub open spec fn body_on(block: ReceivedBlock) -> Seq<u8> {
    scale_optional_list(block.body) + receipt_on(block)
}

/// The encoding of a block from its header on.
pub open spec fn header_on(block: ReceivedBlock) -> Seq<u8> {
    scale_optional_header(block.header) + body_on(block)
}

/// The encoding of a block: its fields, one after the other.
pub open spec fn scale_block(block: ReceivedBlock) -> Seq<u8> {
    block.hash + header_on(block)
}

/// Whether the length of a byte string that may be there fits its encoding.
pub open spec fn fits_bytes(bytes: Option<Seq<u8>>) -> bool {
    bytes matches Some(bytes) ==> bytes.len() <= u32::MAX
}

/// Whether the lengths in a block fit its encoding.
pub open spec fn fits_block(block: ReceivedBlock) -> bool {
    &&& block.body matches Some(body) ==> fits_list(body)
    &&& fits_bytes(block.receipt)
    &&& fits_bytes(block.message_queue)
    &&& fits_bytes(block.justification)
}

/// Whether a block is one that has an encoding: its hash is a hash, its header is one, and
/// its lengths fit.
pub open spec fn is_block(block: ReceivedBlock) -> bool {
    &&& block.hash.len() == 32
    &&& block.header matches Some(header) ==> is_header(header)
    &&& fits_block(block)
}

/// Reads the byte that tells whether something is there, and gives what follows it.
fn decode_tag<'a>(input: &'a [u8]) -> (r: Option<(bool, &'a [u8])>)
    ensures
        match r {
            Some((true, rest)) => input@ == seq![1u8] + rest@,
            Some((false, rest)) => input@ == seq![0u8] + rest@,
            None => input@.len() == 0 || input@[0] > 1,
        },
{
    if input.len() == 0 || input[0] > 1 {
        return None;
    }
    let rest = slice_subrange(input, 1, input.len());
    assert(input@ =~= seq![input@[0]] + rest@);
    Some((input[0] == 1, rest))
}

/// Where two encodings of what may be there agree, it is there in both or in neither.
proof fn lemma_optional(v: Option<Seq<u8>>, w: Option<Seq<u8>>, x: Seq<u8>, y: Seq<u8>)
    requires
        scale_optional(v) + x == scale_optional(w) + y,
    ensures
        v is Some <==> w is Some,
        v is None ==> x == y,
        v is Some ==> v->0 + x == w->0 + y,
{
    assert((scale_optional(v) + x)[0] == scale_optional(v)[0]);
    assert((scale_optional(w) + y)[0] == scale_optional(w)[0]);
    match (v, w) {
        (Some(a), Some(b)) => {
            assert(scale_optional(v) + x =~= seq![1u8] + (a + x));
            assert(scale_optional(w) + y =~= seq![1u8] + (b + y));
            lemma_fronts(seq![1u8], seq![1u8], a + x, b + y);
        },
        _ => {
            lemma_fronts(seq![0u8], seq![0u8], x, y);
        },
    }
}

/// The encoding of a hash that may be there stands for it alone.
proof fn lemma_optional_hash_unique(
    v: Option<Seq<u8>>,
    w: Option<Seq<u8>>,
    x: Seq<u8>,
    y: Seq<u8>,
)
    requires
        is_optional_hash(v),
        is_optional_hash(w),
        scale_optional(v) + x == scale_optional(w) + y,
    ensures
        v == w,
        x == y,
{
    lemma_optional(v, w, x, y);
    if v is Some {
        lemma_fronts(v->0, w->0, x, y);
    }
}

/// The encoding of a number that may be there stands for it alone.
proof fn lemma_optional_number_unique(v: Option<u32>, w: Option<u32>, x: Seq<u8>, y: Seq<u8>)
    requires
        scale_optional_number(v) + x == scale_optional_number(w) + y,
    ensures
        v == w,
        x == y,
{
    let a = match v {
        Some(number) => Some(le_32(number as nat)),
        None => None,
    };
    let b = match w {
        Some(number) => Some(le_32(number as nat)),
        None => None,
    };
    lemma_optional(a, b, x, y);
    if v is Some {
        lemma_number_unique(v->0, w->0, x, y);
    }
}

/// The encoding of a byte string that may be there stands for it alone.
proof fn lemma_optional_bytes_unique(
    v: Option<Seq<u8>>,
    w: Option<Seq<u8>>,
    x: Seq<u8>,
    y: Seq<u8>,
)
    requires
        fits_bytes(v),
        fits_bytes(w),
        scale_optional_bytes(v) + x == scale_optional_bytes(w) + y,
    ensures
        v == w,
        x == y,
{
    let a = match v {
        Some(bytes) => Some(scale_bytes(bytes)),
        None => None,
    };
    let b = match w {
        Some(bytes) => Some(scale_bytes(bytes)),
        None => None,
    };
    lemma_optional(a, b, x, y);
    if v is Some {
        lemma_bytes_unique(v->0, w->0, x, y);
    }
}

/// The encoding of a list that may be there stands for it alone.
proof fn lemma_optional_list_unique(
    v: Option<Seq<Seq<u8>>>,
    w: Option<Seq<Seq<u8>>>,
    x: Seq<u8>,
    y: Seq<u8>,
)
    requires
        v matches Some(list) ==> fits_list(list),
        w matches Some(list) ==> fits_list(list),
        scale_optional_list(v) + x == scale_optional_list(w) + y,
    ensures
        v == w,
        x == y,
{
    let a = match v {
        Some(list) => Some(scale_list(list)),
        None => None,
    };
    let b = match w {
        Some(list) => Some(scale_list(list)),
        None => None,
    };
    lemma_optional(a, b, x, y);
    if v is Some {
        lemma_list_unique(v->0, w->0, x, y);
    }
}

/// The encoding of a header that may be there stands for it alone.
proof fn lemma_optional_header_unique(
    v: Option<HeaderView>,
    w: Option<HeaderView>,
    x: Seq<u8>,
    y: Seq<u8>,
)
    requires
        v matches Some(header) ==> is_header(header),
        w matches Some(header) ==> is_header(header),
        scale_optional_header(v) + x == scale_optional_header(w) + y,
    ensures
        v == w,
        x == y,
{
    let a = match v {
        Some(header) => Some(header.encoded),
        None => None,
    };
    let b = match w {
        Some(header) => Some(header.encoded),
        None => None,
    };
    lemma_optional(a, b, x, y);
    if v is Some {
        let (h, k) = (v->0, w->0);
        assert(header_of(h.encoded + x) == Some((h.encoded, h.number)));
        assert(header_of(k.encoded + y) == Some((k.encoded, k.number)));
        lemma_fronts(h.encoded, k.encoded, x, y);
    }
}

/// The encoding of the start of a range stands for it alone.
proof fn lemma_from_unique(
    v: FromBlock<Seq<u8>, u32>,
    w: FromBlock<Seq<u8>, u32>,
    x: Seq<u8>,
    y: Seq<u8>,
)
    requires
        is_from(v),
        is_from(w),
        scale_from(v) + x == scale_from(w) + y,
    ensures
        v == w,
        x == y,
{
    assert((scale_from(v) + x)[0] == scale_from(v)[0]);
    assert((scale_from(w) + y)[0] == scale_from(w)[0]);
    match (v, w) {
        (FromBlock::Hash(a), FromBlock::Hash(b)) => {
            lemma_fronts(scale_from(v), scale_from(w), x, y);
            lemma_fronts(seq![0u8], seq![0u8], a, b);
        },
        (FromBlock::Number(a), FromBlock::Number(b)) => {
            assert(scale_from(v) + x =~= seq![1u8] + (le_32(a as nat) + x));
            assert(scale_from(w) + y =~= seq![1u8] + (le_32(b as nat) + y));
            lemma_fronts(seq![1u8], seq![1u8], le_32(a as nat) + x, le_32(b as nat) + y);
            lemma_number_unique(a, b, x, y);
        },
        _ => {},
    }
}

impl Direction {
    /// Appends the byte that stands for the direction.
    pub fn encode_to(&self, dest: &mut Vec<u8>)
        ensures
            final(dest)@ == old(dest)@.push(direction_byte(*self)),
            *self is Ascending ==> final(dest)@ == old(dest)@.push(0u8),
            *self is Descending ==> final(dest)@ == old(dest)@.push(1u8),
    {
        match self {
            Direction::Ascending => dest.push(0),
            Direction::Descending => dest.push(1),
        }
    }

    /// The direction that the first byte of `input` stands for, and what follows it.
    pub fn decode<'a>(input: &'a [u8]) -> (r: Result<(Direction, &'a [u8]), CodecError>)
        ensures
            match r {
                Ok((direction, rest)) => input@ == seq![direction_byte(direction)] + rest@,
                Err(CodecError::Malformed) => input@.len() == 0,
                Err(e) => e == CodecError::NoVariant && input@.len() > 0 && input@[0] > 1,
            },
            input@.len() > 0 && input@[0] == 0 ==> (r matches Ok((direction, rest))
                && direction is Ascending && rest@ == input@.skip(1)),
            input@.len() > 0 && input@[0] == 1 ==> (r matches Ok((direction, rest))
                && direction is Descending && rest@ == input@.skip(1)),
    {
        if input.len() == 0 {
            return Err(CodecError::Malformed);
        }
        match decode_tag(input) {
            Some((true, rest)) => {
                assert(rest@ =~= input@.skip(1));
                Ok((Direction::Descending, rest))
            },
            Some((false, rest)) => {
                assert(rest@ =~= input@.skip(1));
                Ok((Direction::Ascending, rest))
            },
            None => Err(CodecError::NoVariant),
        }
    }
}

impl FromBlock<BlockHash, BlockNumber> {
    /// Appends the encoding of the start of a range.
    pub fn encode_to(&self, dest: &mut Vec<u8>)
        ensures
            final(dest)@ == old(dest)@ + scale_from(from_view(*self)),
    {
        let ghost before = dest@;
        let bytes = match self {
            FromBlock::Hash(hash) => {
                dest.push(0);
                encode_hash(hash)
            },
            FromBlock::Number(number) => {
                dest.push(1);
                encode_number(*number)
            },
        };
        append_bytes(dest, bytes.as_slice());
        assert(dest@ =~= before + scale_from(from_view(*self)));
    }

    /// The start of a range whose encoding is at the front of `input`, and what follows it.
    pub fn decode<'a>(input: &'a [u8]) -> (r: Result<
        (FromBlock<BlockHash, BlockNumber>, &'a [u8]),
        CodecError,
    >)
        ensures
            match r {
                Ok((from, rest)) => {
                    &&& input@ == scale_from(from_view(from)) + rest@
                    &&& is_from(from_view(from))
                },
                Err(e) => {
                    &&& forall|from: FromBlock<Seq<u8>, u32>, rest: Seq<u8>|
                        is_from(from) ==> input@ != #[trigger] (scale_from(from) + rest)
                    &&& e == (if input@.len() > 0 && input@[0] > 1 {
                        CodecError::NoVariant
                    } else {
                        CodecError::Malformed
                    })
                },
            },
    {
        if input.len() == 0 {
            proof {
                assert forall|from: FromBlock<Seq<u8>, u32>, rest: Seq<u8>|
                    is_from(from) implies input@ != #[trigger] (scale_from(from) + rest) by {
                    assert((scale_from(from) + rest).len() > 0);
                }
            }
            return Err(CodecError::Malformed);
        }
        match decode_tag(input) {
            Some((false, behind)) => match decode_hash(behind) {
                Ok((hash, rest)) => {
                    assert(input@ =~= seq![0u8] + hash@ + rest@);
                    Ok((FromBlock::Hash(hash), rest))
                },
                Err(_) => {
                    proof {
                        assert forall|from: FromBlock<Seq<u8>, u32>, rest: Seq<u8>|
                            is_from(from) implies input@ != #[trigger] (scale_from(from)
                            + rest) by {
                            assert((scale_from(from) + rest)[0] == scale_from(from)[0]);
                            assert(input@.len() < 33);
                        }
                    }
                    Err(CodecError::Malformed)
                },
            },
            Some((true, behind)) => match decode_number(behind) {
                Ok((number, rest)) => {
                    proof {
                        lemma_number_read(behind@, number);
                    }
                    assert(input@ =~= seq![1u8] + le_32(number as nat) + rest@);
                    Ok((FromBlock::Number(number), rest))
                },
                Err(_) => {
                    proof {
                        assert forall|from: FromBlock<Seq<u8>, u32>, rest: Seq<u8>|
                            is_from(from) implies input@ != #[trigger] (scale_from(from)
                            + rest) by {
                            assert((scale_from(from) + rest)[0] == scale_from(from)[0]);
                            assert(input@.len() < 5);
                        }
                    }
                    Err(CodecError::Malformed)
                },
            },
            None => {
                proof {
                    assert forall|from: FromBlock<Seq<u8>, u32>, rest: Seq<u8>|
                        is_from(from) implies input@ != #[trigger] (scale_from(from) + rest) by {
                        assert((scale_from(from) + rest)[0] == scale_from(from)[0]);
                    }
                }
                Err(CodecError::NoVariant)
            },
        }
    }
}

/// What begins with no such byte is not the encoding of what may be there.
proof fn lemma_no_tag(b: Seq<u8>, v: Option<Seq<u8>>, x: Seq<u8>)
    requires
        b.len() == 0 || b[0] > 1,
    ensures
        b != scale_optional(v) + x,
{
    assert((scale_optional(v) + x)[0] == scale_optional(v)[0]);
}

/// What follows the byte that tells that something is there is its encoding.
proof fn lemma_some(rest: Seq<u8>, v: Option<Seq<u8>>, x: Seq<u8>)
    requires
        seq![1u8] + rest == scale_optional(v) + x,
    ensures
        v is Some,
        rest == v->0 + x,
{
    lemma_optional(Some(rest), v, Seq::empty(), x);
    assert(seq![1u8] + rest =~= scale_optional(Some(rest)) + Seq::<u8>::empty());
    assert(rest + Seq::<u8>::empty() =~= rest);
}

/// Reads a hash that may be there, and gives what follows it.
fn decode_optional_hash<'a>(input: &'a [u8]) -> (r: Option<(Option<BlockHash>, &'a [u8])>)
    ensures
        match r {
            Some((hash, rest)) => input@ == scale_optional(hash_view(hash)) + rest@,
            None => forall|v: Option<Seq<u8>>, x: Seq<u8>|
                is_optional_hash(v) ==> input@ != #[trigger] (scale_optional(v) + x),
        },
{
    match decode_tag(input) {
        Some((true, behind)) => match decode_hash(behind) {
            Ok((hash, rest)) => {
                assert(input@ =~= scale_optional(Some(hash@)) + rest@);
                Some((Some(hash), rest))
            },
            Err(_) => {
                proof {
                    assert forall|v: Option<Seq<u8>>, x: Seq<u8>|
                        is_optional_hash(v) implies input@ != #[trigger] (scale_optional(v)
                        + x) by {
                        if input@ == scale_optional(v) + x {
                            lemma_some(behind@, v, x);
                        }
                    }
                }
                None
            },
        },
        Some((false, rest)) => Some((None, rest)),
        None => {
            proof {
                assert forall|v: Option<Seq<u8>>, x: Seq<u8>|
                    is_optional_hash(v) implies input@ != #[trigger] (scale_optional(v) + x) by {
                    lemma_no_tag(input@, v, x);
                }
            }
            None
        },
    }
}

/// Reads a number that may be there, and gives what follows it.
fn decode_optional_number<'a>(input: &'a [u8]) -> (r: Option<(Option<u32>, &'a [u8])>)
    ensures
        match r {
            Some((number, rest)) => input@ == scale_optional_number(number) + rest@,
            None => forall|v: Option<u32>, x: Seq<u8>|
                input@ != #[trigger] (scale_optional_number(v) + x),
        },
{
    match decode_tag(input) {
        Some((true, behind)) => match decode_number(behind) {
            Ok((number, rest)) => {
                proof {
                    lemma_number_read(behind@, number);
                }
                assert(input@ =~= scale_optional_number(Some(number)) + rest@);
                Some((Some(number), rest))
            },
            Err(_) => {
                proof {
                    assert forall|v: Option<u32>, x: Seq<u8>| input@ != #[trigger] (
                    scale_optional_number(v) + x) by {
                        let w = match v {
                            Some(number) => Some(le_32(number as nat)),
                            None => None,
                        };
                        if input@ == scale_optional(w) + x {
                            lemma_some(behind@, w, x);
                        }
                    }
                }
                None
            },
        },
        Some((false, rest)) => Some((None, rest)),
        None => {
            proof {
                assert forall|v: Option<u32>, x: Seq<u8>| input@ != #[trigger] (
                scale_optional_number(v) + x) by {
                    let w = match v {
                        Some(number) => Some(le_32(number as nat)),
                        None => None,
                    };
                    lemma_no_tag(input@, w, x);
                }
            }
            None
        },
    }
}

/// Reads a byte string that may be there, and gives what follows it.
fn decode_optional_bytes<'a>(input: &'a [u8]) -> (r: Option<(Option<Vec<u8>>, &'a [u8])>)
    ensures
        match r {
            Some((bytes, rest)) => {
                &&& input@ == scale_optional_bytes(optional_bytes(bytes)) + rest@
                &&& fits_bytes(optional_bytes(bytes))
            },
            None => forall|v: Option<Seq<u8>>, x: Seq<u8>|
                fits_bytes(v) ==> input@ != #[trigger] (scale_optional_bytes(v) + x),
        },
{
    match decode_tag(input) {
        Some((true, behind)) => {
            let (bytes, rest) = decode_bytes(behind);
            match bytes {
                Ok(bytes) => {
                    assert(behind@ =~= scale_bytes(bytes@) + rest@);
                    assert(input@ =~= scale_optional_bytes(Some(bytes@)) + rest@);
                    Some((Some(bytes), rest))
                },
                Err(_) => {
                    proof {
                        assert forall|v: Option<Seq<u8>>, x: Seq<u8>|
                            fits_bytes(v) implies input@ != #[trigger] (scale_optional_bytes(v)
                            + x) by {
                            let w = match v {
                                Some(bytes) => Some(scale_bytes(bytes)),
                                None => None,
                            };
                            if input@ == scale_optional(w) + x {
                                lemma_some(behind@, w, x);
                                assert(bytes_at(behind@, v->0));
                            }
                        }
                    }
                    None
                },
            }
        },
        Some((false, rest)) => Some((None, rest)),
        None => {
            proof {
                assert forall|v: Option<Seq<u8>>, x: Seq<u8>|
                    fits_bytes(v) implies input@ != #[trigger] (scale_optional_bytes(v) + x) by {
                    let w = match v {
                        Some(bytes) => Some(scale_bytes(bytes)),
                        None => None,
                    };
                    lemma_no_tag(input@, w, x);
                }
            }
            None
        },
    }
}

/// Reads a list of byte strings that may be there, and gives what follows it.
fn decode_optional_list<'a>(input: &'a [u8]) -> (r: Option<(Option<Vec<Extrinsic>>, &'a [u8])>)
    ensures
        match r {
            Some((list, rest)) => {
                &&& input@ == scale_optional_list(optional_list(list)) + rest@
                &&& optional_list(list) matches Some(list) ==> fits_list(list)
            },
            None => forall|v: Option<Seq<Seq<u8>>>, x: Seq<u8>|
                (v matches Some(list) ==> fits_list(list)) ==> input@ != #[trigger] (
                scale_optional_list(v) + x),
        },
{
    match decode_tag(input) {
        Some((true, behind)) => match decode_list(behind) {
            Ok((list, rest)) => {
                assert(input@ =~= scale_optional_list(Some(views(list@))) + rest@);
                Some((Some(list), rest))
            },
            Err(_) => {
                proof {
                    assert forall|v: Option<Seq<Seq<u8>>>, x: Seq<u8>|
                        (v matches Some(list) ==> fits_list(list)) implies input@
                        != #[trigger] (scale_optional_list(v) + x) by {
                        let w = match v {
                            Some(list) => Some(scale_list(list)),
                            None => None,
                        };
                        if input@ == scale_optional(w) + x {
                            lemma_some(behind@, w, x);
                            assert(behind@ == scale_list(v->0) + x);
                        }
                    }
                }
                None
            },
        },
        Some((false, rest)) => Some((None, rest)),
        None => {
            proof {
                assert forall|v: Option<Seq<Seq<u8>>>, x: Seq<u8>|
                    (v matches Some(list) ==> fits_list(list)) implies input@ != #[trigger] (
                scale_optional_list(v) + x) by {
                    let w = match v {
                        Some(list) => Some(scale_list(list)),
                        None => None,
                    };
                    lemma_no_tag(input@, w, x);
                }
            }
            None
        },
    }
}

/// Reads a header that may be there, and gives what follows it.
fn decode_optional_header<'a>(input: &'a [u8]) -> (r: Option<(Option<Header>, &'a [u8])>)
    ensures
        match r {
            Some((header, rest)) => {
                &&& input@ == scale_optional_header(optional_header(header)) + rest@
                &&& optional_header(header) matches Some(header) ==> is_header(header)
            },
            None => forall|v: Option<HeaderView>, x: Seq<u8>|
                (v matches Some(header) ==> is_header(header)) ==> input@ != #[trigger] (
                scale_optional_header(v) + x),
        },
{
    match decode_tag(input) {
        Some((true, behind)) => match Header::decode(behind) {
            Ok((header, rest)) => {
                assert(input@ =~= scale_optional_header(Some(header@)) + rest@);
                Some((Some(header), rest))
            },
            Err(_) => {
                proof {
                    assert forall|v: Option<HeaderView>, x: Seq<u8>|
                        (v matches Some(header) ==> is_header(header)) implies input@
                        != #[trigger] (scale_optional_header(v) + x) by {
                        let w = match v {
                            Some(header) => Some(header.encoded),
                            None => None,
                        };
                        if input@ == scale_optional(w) + x {
                            lemma_some(behind@, w, x);
                            assert(header_of((v->0).encoded + x) is Some);
                        }
                    }
                }
                None
            },
        },
        Some((false, rest)) => Some((None, rest)),
        None => {
            proof {
                assert forall|v: Option<HeaderView>, x: Seq<u8>|
                    (v matches Some(header) ==> is_header(header)) implies input@ != #[trigger] (
                scale_optional_header(v) + x) by {
                    let w = match v {
                        Some(header) => Some(header.encoded),
                        None => None,
                    };
                    lemma_no_tag(input@, w, x);
                }
            }
            None
        },
    }
}

/// Six parts that are appended one after the other.
proof fn lemma_six_parts(
    d: Seq<u8>,
    a: Seq<u8>,
    b: Seq<u8>,
    c: Seq<u8>,
    e: Seq<u8>,
    f: Seq<u8>,
    g: Seq<u8>,
)
    ensures
        d + a + b + c + e + f + g == d + (a + (b + (c + (e + (f + g))))),
{
    assert(e + f + g =~= e + (f + g));
    assert(d + a + b + c =~= d + (a + (b + c)));
    assert(d + a + b + c + e + f + g =~= (d + a + b + c) + (e + (f + g)));
    let h = e + (f + g);
    assert(d + (a + (b + c)) + h =~= d + (a + (b + (c + h))));
}

/// Appends the encoding of a hash that may be there.
fn encode_optional_hash(hash: &Option<BlockHash>, dest: &mut Vec<u8>)
    ensures
        final(dest)@ == old(dest)@ + scale_optional(hash_view(*hash)),
{
    let ghost before = dest@;
    match hash {
        Some(hash) => {
            dest.push(1);
            append_bytes(dest, encode_hash(hash).as_slice());
        },
        None => {
            dest.push(0);
        },
    }
    assert(dest@ =~= before + scale_optional(hash_view(*hash)));
}

/// Appends the encoding of a number that may be there.
fn encode_optional_number(number: &Option<u32>, dest: &mut Vec<u8>)
    ensures
        final(dest)@ == old(dest)@ + scale_optional_number(*number),
{
    let ghost before = dest@;
    match number {
        Some(number) => {
            dest.push(1);
            append_bytes(dest, encode_number(*number).as_slice());
        },
        None => {
            dest.push(0);
        },
    }
    assert(dest@ =~= before + scale_optional_number(*number));
}

/// Appends the encoding of a header that may be there.
fn encode_optional_header(header: &Option<Header>, dest: &mut Vec<u8>)
    ensures
        final(dest)@ == old(dest)@ + scale_optional_header(optional_header(*header)),
{
    let ghost before = dest@;
    match header {
        Some(header) => {
            dest.push(1);
            header.encode_to(dest);
        },
        None => {
            dest.push(0);
        },
    }
    assert(dest@ =~= before + scale_optional_header(optional_header(*header)));
}

/// Appends the encoding of a list of byte strings that may be there.
fn encode_optional_list(list: &Option<Vec<Extrinsic>>, dest: &mut Vec<u8>)
    requires
        optional_list(*list) matches Some(list) ==> fits_list(list),
    ensures
        final(dest)@ == old(dest)@ + scale_optional_list(optional_list(*list)),
{
    let ghost before = dest@;
    match list {
        Some(list) => {
            dest.push(1);
            append_bytes(dest, encode_list(list).as_slice());
        },
        None => {
            dest.push(0);
        },
    }
    assert(dest@ =~= before + scale_optional_list(optional_list(*list)));
}

/// Appends the encoding of a byte string that may be there.
fn encode_optional_bytes(bytes: &Option<Vec<u8>>, dest: &mut Vec<u8>)
    requires
        fits_bytes(optional_bytes(*bytes)),
    ensures
        final(dest)@ == old(dest)@ + scale_optional_bytes(optional_bytes(*bytes)),
{
    let ghost before = dest@;
    match bytes {
        Some(bytes) => {
            dest.push(1);
            append_bytes(dest, encode_bytes(bytes).as_slice());
        },
        None => {
            dest.push(0);
        },
    }
    assert(dest@ =~= before + scale_optional_bytes(optional_bytes(*bytes)));
}

/// The encoding of a request, taken apart field by field.
proof fn lemma_request_parts(v: RequestView, x: Seq<u8>)
    ensures
        scale_request(v) + x == le_64(v.id as nat) + (fields_on(v) + x),
        fields_on(v) + x == seq![v.fields] + (from_on(v) + x),
        from_on(v) + x == scale_from(v.from) + (to_on(v) + x),
        to_on(v) + x == scale_optional(v.to) + (direction_on(v) + x),
        direction_on(v) + x == seq![direction_byte(v.direction)] + (max_on(v) + x),
        max_on(v) + x == scale_optional_number(v.max) + x,
{
    assert(scale_request(v) + x =~= le_64(v.id as nat) + (fields_on(v) + x));
    assert(fields_on(v) + x =~= seq![v.fields] + (from_on(v) + x));
    assert(from_on(v) + x =~= scale_from(v.from) + (to_on(v) + x));
    assert(to_on(v) + x =~= scale_optional(v.to) + (direction_on(v) + x));
    assert(direction_on(v) + x =~= seq![direction_byte(v.direction)] + (max_on(v) + x));
}

/// The encoding of a request stands for that request alone, whatever follows it: a request
/// that was written is the one that is read, and what follows it is left.
pub proof fn requests_are_read_back(v: RequestView, w: RequestView, x: Seq<u8>, y: Seq<u8>)
    requires
        is_request(v),
        is_request(w),
        scale_request(v) + x == scale_request(w) + y,
    ensures
        v == w,
        x == y,
{
    lemma_request_parts(v, x);
    lemma_request_parts(w, y);
    lemma_id_unique(v.id, w.id, fields_on(v) + x, fields_on(w) + y);
    lemma_fronts(seq![v.fields], seq![w.fields], from_on(v) + x, from_on(w) + y);
    assert(seq![v.fields][0] == seq![w.fields][0]);
    lemma_from_unique(v.from, w.from, to_on(v) + x, to_on(w) + y);
    lemma_optional_hash_unique(v.to, w.to, direction_on(v) + x, direction_on(w) + y);
    let (d, e) = (direction_byte(v.direction), direction_byte(w.direction));
    lemma_fronts(seq![d], seq![e], max_on(v) + x, max_on(w) + y);
    assert(seq![d][0] == seq![e][0]);
    lemma_optional_number_unique(v.max, w.max, x, y);
}

impl gBlockRequest<BlockHash, BlockNumber> {
    /// Appends the encoding of the request.
    pub fn encode_to(&self, dest: &mut Vec<u8>)
        ensures
            final(dest)@ == old(dest)@ + scale_request(self@),
    {
        let ghost before = dest@;
        append_bytes(dest, encode_id(self.id).as_slice());
        let ghost with_id = dest@;
        self.fields.encode_to(dest);
        assert(dest@ =~= with_id + seq![self@.fields]);
        self.from.encode_to(dest);
        encode_optional_hash(&self.to, dest);
        let ghost with_to = dest@;
        self.direction.encode_to(dest);
        assert(dest@ =~= with_to + seq![direction_byte(self@.direction)]);
        encode_optional_number(&self.max, dest);
        proof {
            lemma_six_parts(
                before,
                le_64(self@.id as nat),
                seq![self@.fields],
                scale_from(self@.from),
                scale_optional(self@.to),
                seq![direction_byte(self@.direction)],
                max_on(self@),
            );
        }
    }

    /// The request whose encoding is at the front of `input`, and what follows it.
    pub fn decode<'a>(input: &'a [u8]) -> (r: Result<
        (gBlockRequest<BlockHash, BlockNumber>, &'a [u8]),
        CodecError,
    >)
        ensures
            match r {
                Ok((request, rest)) => {
                    &&& input@ == scale_request(request@) + rest@
                    &&& is_request(request@)
                },
                Err(e) => {
                    &&& forall|v: RequestView, x: Seq<u8>|
                        is_request(v) ==> input@ != #[trigger] (scale_request(v) + x)
                    &&& e == CodecError::Malformed
                },
            },
    {
        proof {
            assert forall|v: RequestView, x: Seq<u8>|
                is_request(v) && input@ == #[trigger] (scale_request(v) + x) implies input@
                == le_64(v.id as nat) + (fields_on(v) + x) by {
                lemma_request_parts(v, x);
            }
        }
        let (id, behind_id) = match decode_id(input) {
            Ok(read) => read,
            Err(_) => return Err(CodecError::Malformed),
        };
        proof {
            assert forall|v: RequestView, x: Seq<u8>|
                is_request(v) && input@ == #[trigger] (scale_request(v) + x) implies behind_id@
                == seq![v.fields] + (from_on(v) + x) by {
                lemma_request_parts(v, x);
                lemma_id_unique(id, v.id, behind_id@, fields_on(v) + x);
            }
        }
        let (fields, behind_fields) = match BlockAttributes::decode(behind_id) {
            (Ok(fields), rest) => (fields, rest),
            (Err(_), _) => {
                return Err(CodecError::Malformed);
            },
        };
        assert(behind_id@ =~= seq![fields@] + behind_fields@);
        proof {
            assert forall|v: RequestView, x: Seq<u8>|
                is_request(v) && input@ == #[trigger] (scale_request(v) + x) implies behind_fields@
                == scale_from(v.from) + (to_on(v) + x) by {
                lemma_request_parts(v, x);
                lemma_fronts(seq![fields@], seq![v.fields], behind_fields@, from_on(v) + x);
            }
        }
        let (from, behind_from) = match FromBlock::decode(behind_fields) {
            Ok(read) => read,
            Err(_) => return Err(CodecError::Malformed),
        };
        proof {
            assert forall|v: RequestView, x: Seq<u8>|
                is_request(v) && input@ == #[trigger] (scale_request(v) + x) implies behind_from@
                == scale_optional(v.to) + (direction_on(v) + x) by {
                lemma_request_parts(v, x);
                lemma_from_unique(from_view(from), v.from, behind_from@, to_on(v) + x);
            }
        }
        let (to, behind_to) = match decode_optional_hash(behind_from) {
            Some(read) => read,
            None => return Err(CodecError::Malformed),
        };
        proof {
            assert forall|v: RequestView, x: Seq<u8>|
                is_request(v) && input@ == #[trigger] (scale_request(v) + x) implies behind_to@
                == seq![direction_byte(v.direction)] + (max_on(v) + x) by {
                lemma_request_parts(v, x);
                lemma_optional_hash_unique(
                    hash_view(to),
                    v.to,
                    behind_to@,
                    direction_on(v) + x,
                );
            }
        }
        let (direction, behind_direction) = match Direction::decode(behind_to) {
            Ok(read) => read,
            Err(_) => return Err(CodecError::Malformed),
        };
        proof {
            assert forall|v: RequestView, x: Seq<u8>|
                is_request(v) && input@ == #[trigger] (scale_request(v) + x) implies
                behind_direction@ == scale_optional_number(v.max) + x by {
                lemma_request_parts(v, x);
                lemma_fronts(
                    seq![direction_byte(direction)],
                    seq![direction_byte(v.direction)],
                    behind_direction@,
                    max_on(v) + x,
                );
            }
        }
        let (max, rest) = match decode_optional_number(behind_direction) {
            Some(read) => read,
            None => return Err(CodecError::Malformed),
        };
        let request = gBlockRequest { id, fields, from, to, direction, max };
        proof {
            lemma_request_parts(request@, rest@);
        }
        Ok((request, rest))
    }
}

/// The encoding of a block, taken apart field by field.
proof fn lemma_block_parts(v: ReceivedBlock, x: Seq<u8>)
    ensures
        scale_block(v) + x == v.hash + (header_on(v) + x),
        header_on(v) + x == scale_optional_header(v.header) + (body_on(v) + x),
        body_on(v) + x == scale_optional_list(v.body) + (receipt_on(v) + x),
        receipt_on(v) + x == scale_optional_bytes(v.receipt) + (message_queue_on(v) + x),
        message_queue_on(v) + x == scale_optional_bytes(v.message_queue) + (justification_on(v)
            + x),
        justification_on(v) + x == scale_optional_bytes(v.justification) + x,
{
    assert(scale_block(v) + x =~= v.hash + (header_on(v) + x));
    assert(header_on(v) + x =~= scale_optional_header(v.header) + (body_on(v) + x));
    assert(body_on(v) + x =~= scale_optional_list(v.body) + (receipt_on(v) + x));
    assert(receipt_on(v) + x =~= scale_optional_bytes(v.receipt) + (message_queue_on(v) + x));
    assert(message_queue_on(v) + x =~= scale_optional_bytes(v.message_queue) + (justification_on(v)
        + x));
}

/// The encoding of a block stands for that block alone, whatever follows it: a block that
/// was written is the one that is read, and what follows it is left.
pub proof fn blocks_are_read_back(v: ReceivedBlock, w: ReceivedBlock, x: Seq<u8>, y: Seq<u8>)
    requires
        is_block(v),
        is_block(w),
        scale_block(v) + x == scale_block(w) + y,
    ensures
        v == w,
        x == y,
{
    lemma_block_parts(v, x);
    lemma_block_parts(w, y);
    lemma_fronts(v.hash, w.hash, header_on(v) + x, header_on(w) + y);
    lemma_optional_header_unique(v.header, w.header, body_on(v) + x, body_on(w) + y);
    lemma_optional_list_unique(v.body, w.body, receipt_on(v) + x, receipt_on(w) + y);
    lemma_optional_bytes_unique(
        v.receipt,
        w.receipt,
        message_queue_on(v) + x,
        message_queue_on(w) + y,
    );
    lemma_optional_bytes_unique(
        v.message_queue,
        w.message_queue,
        justification_on(v) + x,
        justification_on(w) + y,
    );
    lemma_optional_bytes_unique(v.justification, w.justification, x, y);
}

impl BlockData<Header, BlockHash, Extrinsic> {
    /// Appends the encoding of the block.
    pub fn encode_to(&self, dest: &mut Vec<u8>)
        requires
            fits_block(self@),
        ensures
            final(dest)@ == old(dest)@ + scale_block(self@),
    {
        let ghost before = dest@;
        append_bytes(dest, encode_hash(&self.hash).as_slice());
        encode_optional_header(&self.header, dest);
        encode_optional_list(&self.body, dest);
        encode_optional_bytes(&self.receipt, dest);
        encode_optional_bytes(&self.message_queue, dest);
        encode_optional_bytes(&self.justification, dest);
        proof {
            lemma_six_parts(
                before,
                self@.hash,
                scale_optional_header(self@.header),
                scale_optional_list(self@.body),
                scale_optional_bytes(self@.receipt),
                scale_optional_bytes(self@.message_queue),
                justification_on(self@),
            );
        }
    }

    /// The block whose encoding is at the front of `input`, and what follows it.
    pub fn decode<'a>(input: &'a [u8]) -> (r: Result<
        (BlockData<Header, BlockHash, Extrinsic>, &'a [u8]),
        CodecError,
    >)
        ensures
            match r {
                Ok((block, rest)) => {
                    &&& input@ == scale_block(block@) + rest@
                    &&& is_block(block@)
                },
                Err(e) => {
                    &&& forall|v: ReceivedBlock, x: Seq<u8>|
                        is_block(v) ==> input@ != #[trigger] (scale_block(v) + x)
                    &&& e == CodecError::Malformed
                },
            },
    {
        proof {
            assert forall|v: ReceivedBlock, x: Seq<u8>|
                is_block(v) && input@ == #[trigger] (scale_block(v) + x) implies input@ == v.hash
                + (header_on(v) + x) by {
                lemma_block_parts(v, x);
            }
        }
        let (hash, behind_hash) = match decode_hash(input) {
            Ok(read) => read,
            Err(_) => return Err(CodecError::Malformed),
        };
        assert(input@ =~= hash@ + behind_hash@);
        proof {
            assert forall|v: ReceivedBlock, x: Seq<u8>|
                is_block(v) && input@ == #[trigger] (scale_block(v) + x) implies behind_hash@
                == scale_optional_header(v.header) + (body_on(v) + x) by {
                lemma_block_parts(v, x);
                lemma_fronts(hash@, v.hash, behind_hash@, header_on(v) + x);
            }
        }
        let (header, behind_header) = match decode_optional_header(behind_hash) {
            Some(read) => read,
            None => return Err(CodecError::Malformed),
        };
        proof {
            assert forall|v: ReceivedBlock, x: Seq<u8>|
                is_block(v) && input@ == #[trigger] (scale_block(v) + x) implies behind_header@
                == scale_optional_list(v.body) + (receipt_on(v) + x) by {
                lemma_block_parts(v, x);
                lemma_optional_header_unique(
                    optional_header(header),
                    v.header,
                    behind_header@,
                    body_on(v) + x,
                );
            }
        }
        let (body, behind_body) = match decode_optional_list(behind_header) {
            Some(read) => read,
            None => return Err(CodecError::Malformed),
        };
        proof {
            assert forall|v: ReceivedBlock, x: Seq<u8>|
                is_block(v) && input@ == #[trigger] (scale_block(v) + x) implies behind_body@
                == scale_optional_bytes(v.receipt) + (message_queue_on(v) + x) by {
                lemma_block_parts(v, x);
                lemma_optional_list_unique(
                    optional_list(body),
                    v.body,
                    behind_body@,
                    receipt_on(v) + x,
                );
            }
        }
        let (receipt, behind_receipt) = match decode_optional_bytes(behind_body) {
            Some(read) => read,
            None => return Err(CodecError::Malformed),
        };
        proof {
            assert forall|v: ReceivedBlock, x: Seq<u8>|
                is_block(v) && input@ == #[trigger] (scale_block(v) + x) implies behind_receipt@
                == scale_optional_bytes(v.message_queue) + (justification_on(v) + x) by {
                lemma_block_parts(v, x);
                lemma_optional_bytes_unique(
                    optional_bytes(receipt),
                    v.receipt,
                    behind_receipt@,
                    message_queue_on(v) + x,
                );
            }
        }
        let (message_queue, behind_queue) = match decode_optional_bytes(behind_receipt) {
            Some(read) => read,
            None => return Err(CodecError::Malformed),
        };
        proof {
            assert forall|v: ReceivedBlock, x: Seq<u8>|
                is_block(v) && input@ == #[trigger] (scale_block(v) + x) implies behind_queue@
                == scale_optional_bytes(v.justification) + x by {
                lemma_block_parts(v, x);
                lemma_optional_bytes_unique(
                    optional_bytes(message_queue),
                    v.message_queue,
                    behind_queue@,
                    justification_on(v) + x,
                );
            }
        }
        let (justification, rest) = match decode_optional_bytes(behind_queue) {
            Some(read) => read,
            None => return Err(CodecError::Malformed),
        };
        let block = BlockData { hash, header, body, receipt, message_queue, justification };
        proof {
            lemma_block_parts(block@, rest@);
        }
        Ok((block, rest))
    }
}

/// How a request is laid out: eight bytes for its identity; a byte for the wanted parts; a 0
/// and a hash to start at, or a 1 and the four bytes of a number; a 1 and the hash to end at,
/// or a 0; a 0 for upwards or a 1 for downwards; and a 1 and the four bytes of a limit, or a 0.
pub proof fn requests_are_laid_out(v: RequestView)
    ensures
        scale_request(v) == le_64(v.id as nat) + (seq![v.fields] + ((match v.from {
            FromBlock::Hash(hash) => seq![0u8] + hash,
            FromBlock::Number(number) => seq![1u8] + le_32(number as nat),
        }) + ((match v.to {
            Some(hash) => seq![1u8] + hash,
            None => seq![0u8],
        }) + ((match v.direction {
            Direction::Ascending => seq![0u8],
            Direction::Descending => seq![1u8],
        }) + (match v.max {
            Some(number) => seq![1u8] + le_32(number as nat),
            None => seq![0u8],
        }))))),
        is_request(v) <==> v.fields < 32 && (v.from matches FromBlock::Hash(hash) ==> hash.len()
            == 32) && (v.to matches Some(hash) ==> hash.len() == 32),
        scale_request(v)[8] == v.fields,
        v.from is Hash ==> scale_request(v)[9] == 0,
        v.from is Number ==> scale_request(v)[9] == 1,
{
    assert(scale_request(v)[8] == fields_on(v)[0]);
    assert(scale_request(v)[9] == from_on(v)[0]);
}

/// How a block is laid out: its hash, then its header, its extrinsics, its receipt, its
/// message queue and its justification, each behind a 1, or a 0 where it is not there.
pub proof fn blocks_are_laid_out(v: ReceivedBlock)
    ensures
        scale_block(v) == v.hash + ((match v.header {
            Some(header) => seq![1u8] + header.encoded,
            None => seq![0u8],
        }) + ((match v.body {
            Some(list) => seq![1u8] + scale_list(list),
            None => seq![0u8],
        }) + ((match v.receipt {
            Some(bytes) => seq![1u8] + scale_bytes(bytes),
            None => seq![0u8],
        }) + ((match v.message_queue {
            Some(bytes) => seq![1u8] + scale_bytes(bytes),
            None => seq![0u8],
        }) + (match v.justification {
            Some(bytes) => seq![1u8] + scale_bytes(bytes),
            None => seq![0u8],
        }))))),
{
}

/// Which lengths a block must have to be one: its hash has 32 bytes, and no byte string nor
/// the list of its extrinsics is longer than what 32 bits count.
pub proof fn lengths_in_blocks_are_counted(v: ReceivedBlock, i: int)
    requires
        is_block(v),
    ensures
        v.hash.len() == 32,
        v.body matches Some(list) ==> list.len() <= 0xffff_ffff && (0 <= i < list.len()
            ==> list[i].len() <= 0xffff_ffff),
        v.receipt matches Some(bytes) ==> bytes.len() <= 0xffff_ffff,
        v.message_queue matches Some(bytes) ==> bytes.len() <= 0xffff_ffff,
        v.justification matches Some(bytes) ==> bytes.len() <= 0xffff_ffff,
{
}

/// A block without parts but its hash is one, and stays one with each part that fits.
pub proof fn blocks_may_lack_any_part(v: ReceivedBlock)
    requires
        v.hash.len() == 32,
        v.header is None,
        v.body is None,
        v.receipt is None,
        v.message_queue is None,
        v.justification is None,
    ensures
        is_block(v),
        forall|bytes: Seq<u8>|
            bytes.len() <= 0xffff_ffff ==> #[trigger] is_block(
                ReceivedBlock { receipt: Some(bytes), ..v },
            ),
        forall|bytes: Seq<u8>|
            bytes.len() <= 0xffff_ffff ==> #[trigger] is_block(
                ReceivedBlock { message_queue: Some(bytes), ..v },
            ),
        forall|bytes: Seq<u8>|
            bytes.len() <= 0xffff_ffff ==> #[trigger] is_block(
                ReceivedBlock { justification: Some(bytes), ..v },
            ),
        forall|header: HeaderView|
            is_header(header) ==> #[trigger] is_block(ReceivedBlock { header: Some(header), ..v }),
{
}

/// Requests, and what may be there, stand for what they hold.
pub proof fn requests_stand_for_their_parts(
    request: gBlockRequest<BlockHash, BlockNumber>,
    list: Option<Vec<Extrinsic>>,
    header: Option<Header>,
    i: int,
)
    ensures
        request@.id == request.id,
        request@.fields == request.fields@,
        request.from matches FromBlock::Hash(hash) ==> request@.from == FromBlock::<
            Seq<u8>,
            u32,
        >::Hash(hash@),
        request.from matches FromBlock::Number(number) ==> request@.from == FromBlock::<
            Seq<u8>,
            u32,
        >::Number(number),
        request.to is None <==> request@.to is None,
        request.to matches Some(hash) ==> request@.to == Some(hash@),
        request@.direction == request.direction,
        request@.max == request.max,
        list is None <==> optional_list(list) is None,
        list matches Some(items) ==> (optional_list(list) matches Some(found) && found.len()
            == items@.len() && (0 <= i < found.len() ==> found[i] == items@[i]@)),
        header is None <==> optional_header(header) is None,
        header matches Some(h) ==> optional_header(header) == Some(h@),
{
}

} // verus!
