//! Block headers and the announcements that carry them.
use crate::octets::append_bytes;
use crate::scale::{
    behind_bytes, bytes_at, bytes_of, compact, decode_bytes, encode_bytes, lemma_bytes_at_unique,
    lemma_bytes_round_trip, scale_bytes, CodecError,
};
use vstd::prelude::*;
use vstd::slice::slice_subrange;

verus! {

/// What `sp_runtime::generic::Header::<u32, BlakeTwo256>::decode` reads at the
/// front of a byte string: the encoding of the header, and its block number.
pub uninterp spec fn header_of(b: Seq<u8>) -> Option<(Seq<u8>, u32)>;

/// The hash that `sp_runtime::traits::BlakeTwo256` gives to a byte string.
pub uninterp spec fn blake_two_256(data: Seq<u8>) -> Seq<u8>;

/// `Decode::decode` of `sp_runtime::generic::Header<u32, BlakeTwo256>`. A header
/// has one encoding, so what is read is the encoding of what was read, the rest
/// is left, and what is read does not depend on the rest. The number stands in
/// compact form behind the 32 bytes of the parent's hash.
#[verifier::external_body]
fn decode_header<'a>(input: &'a [u8]) -> (r: Result<
    (Vec<u8>, u32, &'a [u8]),
    parity_scale_codec::Error,
>)
    ensures
        match r {
            Ok((encoded, number, rest)) => {
                &&& header_of(input@) == Some((encoded@, number))
                &&& input@ == encoded@ + rest@
                &&& forall|tail: Seq<u8>|
                    #[trigger] header_of(encoded@ + tail) == Some((encoded@, number))
                &&& encoded@.len() > 32
                &&& compact(number as nat).is_prefix_of(encoded@.skip(32))
            },
            Err(_) => header_of(input@) is None,
        },
{
    let mut rest = input;
    let header: sp_runtime::generic::Header<u32, sp_runtime::traits::BlakeTwo256> =
        parity_scale_codec::Decode::decode(&mut rest)?;
    Ok((parity_scale_codec::Encode::encode(&header), header.number, rest))
}

/// `sp_runtime::traits::Hash::hash` of `BlakeTwo256`. It depends on the bytes
/// alone.
#[verifier::external_body]
fn hash_bytes(data: &[u8]) -> (r: [u8; 32])
    ensures
        r@ == blake_two_256(data@),
{
    <sp_runtime::traits::BlakeTwo256 as sp_runtime::traits::Hash>::hash(data).0
}

/// The header of a block.
#[derive(Debug)]
pub struct Header {
    encoded: Vec<u8>,
    number: u32,
}

/// What a header stands for: its one encoding, and the number in it.
pub struct HeaderView {
    pub encoded: Seq<u8>,
    pub number: u32,
}

/// Whether a byte string is the encoding of a header with that number: it is
/// what is read from the front of every byte string that begins with it.
pub open spec fn is_header(h: HeaderView) -> bool {
    forall|tail: Seq<u8>| #[trigger] header_of(h.encoded + tail) == Some((h.encoded, h.number))
}

impl View for Header {
    type V = HeaderView;

    closed spec fn view(&self) -> HeaderView {
        HeaderView { encoded: self.encoded@, number: self.number }
    }
}

impl Header {
    /// The header whose encoding is at the front of `input`, and what follows it.
    pub fn decode<'a>(input: &'a [u8]) -> (r: Result<(Header, &'a [u8]), CodecError>)
        ensures
            match r {
                Ok((header, rest)) => {
                    &&& header_of(input@) == Some((header@.encoded, header@.number))
                    &&& input@ == header@.encoded + rest@
                    &&& is_header(header@)
                    &&& header@.encoded.len() > 32
                    &&& compact(header@.number as nat).is_prefix_of(header@.encoded.skip(32))
                },
                Err(e) => header_of(input@) is None && e == CodecError::Malformed,
            },
    {
        match decode_header(input) {
            Ok((encoded, number, rest)) => Ok((Header { encoded, number }, rest)),
            Err(_) => Err(CodecError::Malformed),
        }
    }

    /// The number of the block.
    pub fn number(&self) -> (n: u32)
        ensures
            n == self@.number,
    {
        self.number
    }

    /// The hash of the block: the hash of the encoding of its header.
    pub fn hash(&self) -> (h: [u8; 32])
        ensures
            h@ == blake_two_256(self@.encoded),
    {
        hash_bytes(self.encoded.as_slice())
    }

    /// Appends the encoding of the header.
    pub fn encode_to(&self, dest: &mut Vec<u8>)
        ensures
            final(dest)@ == old(dest)@ + self@.encoded,
    {
        append_bytes(dest, self.encoded.as_slice());
    }
}

/// Block state in the chain.
#[derive(Debug, Clone, Copy, PartialEq, Eq, Structural)]
pub enum BlockState {
    /// Block is not part of the best chain.
    Normal,
    /// Latest best block.
    Best,
}

/// The byte that stands for a block state.
pub open spec fn state_byte(state: BlockState) -> u8 {
    match state {
        BlockState::Normal => 0,
        BlockState::Best => 1,
    }
}

/// The block state that the first byte of `b` stands for.
pub open spec fn state_of(b: Seq<u8>) -> Result<BlockState, CodecError> {
    if b.len() == 0 {
        Err(CodecError::Malformed)
    } else if b[0] == 0 {
        Ok(BlockState::Normal)
    } else if b[0] == 1 {
        Ok(BlockState::Best)
    } else {
        Err(CodecError::NoVariant)
    }
}

/// What is left of `b` once a byte was asked for.
pub open spec fn after_byte(b: Seq<u8>) -> Seq<u8> {
    if b.len() == 0 {
        b
    } else {
        b.skip(1)
    }
}

impl BlockState {
    /// Appends the byte that stands for the state.
    pub fn encode_to(&self, dest: &mut Vec<u8>)
        ensures
            final(dest)@ == old(dest)@.push(state_byte(*self)),
            *self is Normal ==> final(dest)@ == old(dest)@.push(0u8),
            *self is Best ==> final(dest)@ == old(dest)@.push(1u8),
    {
        match self {
            BlockState::Normal => dest.push(0x00),
            BlockState::Best => dest.push(0x01),
        }
    }

    /// Reads a state, and gives what is left of the input. A byte that stands for
    /// no state is taken from the input all the same.
    pub fn decode<'a>(input: &'a [u8]) -> (r: (Result<BlockState, CodecError>, &'a [u8]))
        ensures
            r.0 == state_of(input@),
            r.1@ == after_byte(input@),
            input@.len() == 0 ==> r.0 == Err::<BlockState, CodecError>(CodecError::Malformed)
                && r.1@.len() == 0,
            input@.len() > 0 ==> r.1@ == input@.skip(1),
            input@.len() > 0 && input@[0] == 0 ==> r.0 == Ok::<BlockState, CodecError>(
                BlockState::Normal,
            ),
            input@.len() > 0 && input@[0] == 1 ==> r.0 == Ok::<BlockState, CodecError>(
                BlockState::Best,
            ),
            input@.len() > 0 && input@[0] > 1 ==> r.0 == Err::<BlockState, CodecError>(
                CodecError::NoVariant,
            ),
    {
        if input.len() == 0 {
            return (Err(CodecError::Malformed), input);
        }
        let rest = slice_subrange(input, 1, input.len());
        assert(rest@ =~= input@.skip(1));
        let byte = input[0];
        if byte == 0 {
            (Ok(BlockState::Normal), rest)
        } else if byte == 1 {
            (Ok(BlockState::Best), rest)
        } else {
            (Err(CodecError::NoVariant), rest)
        }
    }
}

/// Announce a new complete relay chain block on the network.
#[derive(Debug)]
pub struct BlockAnnounce {
    /// New block header.
    pub header: Header,
    /// Block state, which older peers leave out.
    pub state: Option<BlockState>,
    /// Data associated with this block announcement, e.g. a candidate message.
    pub data: Option<Vec<u8>>,
}

/// What an announcement stands for.
pub struct BlockAnnounceView {
    pub header: HeaderView,
    pub state: Option<BlockState>,
    pub data: Option<Seq<u8>>,
}

impl View for BlockAnnounce {
    type V = BlockAnnounceView;

    open spec fn view(&self) -> BlockAnnounceView {
        BlockAnnounceView {
            header: self.header@,
            state: self.state,
            data: match self.data {
                Some(data) => Some(data@),
                None => None,
            },
        }
    }
}

/// The encoding of an announcement: the header, then the state and the data,
/// each only where it is there.
pub open spec fn announce_bytes(a: BlockAnnounceView) -> Seq<u8> {
    a.header.encoded + (match a.state {
        Some(state) => seq![state_byte(state)],
        None => Seq::empty(),
    }) + (match a.data {
        Some(data) => scale_bytes(data),
        None => Seq::empty(),
    })
}

/// The announcement of a header, from what follows the header. A state or data that
/// cannot be read is taken as not there; a byte that stands for no state is passed
/// over.
pub open spec fn announce_behind(header: HeaderView, rest: Seq<u8>) -> BlockAnnounceView {
    BlockAnnounceView {
        header,
        state: match state_of(rest) {
            Ok(state) => Some(state),
            Err(_) => None,
        },
        data: bytes_of(after_byte(rest)),
    }
}

/// What is left behind the announcement of a header, from what follows the header.
pub open spec fn behind_announce(rest: Seq<u8>) -> Seq<u8> {
    behind_bytes(after_byte(rest))
}

/// The announcement at the front of `b`.
pub open spec fn announce_of(b: Seq<u8>) -> Option<BlockAnnounceView> {
    match header_of(b) {
        Some((encoded, number)) => Some(
            announce_behind(HeaderView { encoded, number }, b.skip(encoded.len() as int)),
        ),
        None => None,
    }
}

/// What follows the announcement at the front of `b`.
pub open spec fn announce_rest(b: Seq<u8>) -> Option<Seq<u8>> {
    match header_of(b) {
        Some((encoded, _)) => Some(behind_announce(b.skip(encoded.len() as int))),
        None => None,
    }
}

impl BlockAnnounce {
    /// Appends the encoding of the announcement.
    pub fn encode_to(&self, dest: &mut Vec<u8>)
        requires
            self.data matches Some(data) ==> data@.len() <= u32::MAX,
        ensures
            final(dest)@ == old(dest)@ + announce_bytes(self@),
    {
        let ghost before = dest@;
        self.header.encode_to(dest);
        if let Some(state) = &self.state {
            state.encode_to(dest);
        }
        if let Some(data) = &self.data {
            let bytes = encode_bytes(data);
            append_bytes(dest, bytes.as_slice());
        }
        assert(dest@ =~= before + announce_bytes(self@));
    }

    /// The announcement at the front of `input`, and what follows it.
    pub fn decode<'a>(input: &'a [u8]) -> (r: Result<(BlockAnnounce, &'a [u8]), CodecError>)
        ensures
            match r {
                Ok((announce, rest)) => {
                    &&& announce_of(input@) == Some(announce@)
                    &&& announce_rest(input@) == Some(rest@)
                    &&& is_header(announce.header@)
                },
                Err(e) => announce_of(input@) is None && e == CodecError::Malformed,
            },
    {
        let (header, rest) = Header::decode(input)?;
        assert(rest@ =~= input@.skip(header@.encoded.len() as int));
        Ok(BlockAnnounce::behind_header(header, rest))
    }

    /// The announcement of a header, from what follows the header, and what is left.
    pub fn behind_header<'a>(header: Header, rest: &'a [u8]) -> (r: (BlockAnnounce, &'a [u8]))
        ensures
            r.0.header == header,
            r.0@ == announce_behind(header@, rest@),
            r.1@ == behind_announce(rest@),
            r.0.state == Some(BlockState::Normal) <==> rest@.len() > 0 && rest@[0] == 0,
            r.0.state == Some(BlockState::Best) <==> rest@.len() > 0 && rest@[0] == 1,
            rest@.len() == 0 ==> r.0.data is None,
            rest@.len() > 0 ==> match r.0.data {
                Some(data) => bytes_at(rest@.skip(1), data@) && r.1@ == rest@.skip(
                    1 + scale_bytes(data@).len() as int,
                ),
                None => forall|data: Seq<u8>| !bytes_at(rest@.skip(1), data),
            },
    {
        let ghost behind = rest;
        let (state, rest) = BlockState::decode(rest);
        let state = match state {
            Ok(state) => Some(state),
            Err(_) => None,
        };
        let (data, left) = decode_bytes(rest);
        let data = match data {
            Ok(data) => {
                proof {
                    lemma_bytes_at_unique(
                        rest@,
                        data@,
                        choose|d: Seq<u8>| bytes_at(rest@, d),
                    );
                }
                Some(data)
            },
            Err(_) => None,
        };
        assert(left@ =~= behind_bytes(rest@));
        proof {
            lemma_no_bytes(Seq::empty());
            if behind@.len() == 0 {
                assert(rest@ =~= Seq::<u8>::empty());
                assert(bytes_of(rest@) is None);
            } else if let Some(data) = &data {
                assert(left@ =~= behind@.skip(1 + scale_bytes(data@).len() as int));
            }
        }
        (BlockAnnounce { header, state, data }, left)
    }
}

/// Decoding the encoding of a block state gives the state back.
pub proof fn state_round_trip(state: BlockState, rest: Seq<u8>)
    ensures
        state_of(seq![state_byte(state)] + rest) == Ok::<BlockState, CodecError>(state),
        after_byte(seq![state_byte(state)] + rest) == rest,
{
    assert((seq![state_byte(state)] + rest).skip(1) =~= rest);
}

proof fn lemma_no_bytes(b: Seq<u8>)
    requires
        b.len() == 0,
    ensures
        bytes_of(b) is None,
{
    assert forall|data: Seq<u8>| !bytes_at(b, data) by {
        assert(scale_bytes(data).len() > 0);
    }
}

/// Decoding the encoding of an announcement gives the announcement back and uses the input
/// up, but for data without a state: there the first byte of the data is taken for a state,
/// and the announcement does not come back.
pub proof fn announce_round_trip(a: BlockAnnounceView)
    requires
        is_header(a.header),
        a.data matches Some(data) ==> data.len() <= u32::MAX,
    ensures
        announce_of(announce_bytes(a)) == Some(a) <==> a.state is Some || a.data is None,
        a.state is Some || a.data is None ==> announce_rest(announce_bytes(a)) == Some(
            Seq::<u8>::empty(),
        ),
{
    let b = announce_bytes(a);
    let state_part: Seq<u8> = match a.state {
        Some(state) => seq![state_byte(state)],
        None => Seq::empty(),
    };
    let data_part: Seq<u8> = match a.data {
        Some(data) => scale_bytes(data),
        None => Seq::empty(),
    };
    let rest = state_part + data_part;
    assert(b =~= a.header.encoded + rest);
    assert(header_of(b) == Some((a.header.encoded, a.header.number)));
    assert(b.skip(a.header.encoded.len() as int) =~= rest);
    match a.state {
        Some(state) => {
            state_round_trip(state, data_part);
            match a.data {
                Some(data) => {
                    lemma_bytes_round_trip(data, Seq::empty());
                    assert(scale_bytes(data) + Seq::<u8>::empty() =~= data_part);
                    assert(data_part.skip(data_part.len() as int) =~= Seq::<u8>::empty());
                },
                None => {
                    lemma_no_bytes(data_part);
                },
            }
        },
        None => {
            assert(rest =~= data_part);
            match a.data {
                Some(data) => {
                    assert(rest.len() > 0);
                    let left = rest.skip(1);
                    if bytes_of(left) == Some(data) {
                        assert(bytes_at(left, data));
                        assert(scale_bytes(data).len() <= left.len());
                        assert(false);
                    }
                },
                None => {
                    lemma_no_bytes(rest);
                },
            }
        },
    }
}

/// Behind the header of an announcement stands a byte for the state: 0 for a block that is
/// not on the best chain, 1 for the best block; any other byte is passed over. Behind that
/// byte stand the data, with their length before them, as far as they can be read.
pub proof fn announcements_follow_their_header(
    header: HeaderView,
    byte: u8,
    data: Seq<u8>,
    rest: Seq<u8>,
)
    requires
        is_header(header),
        data.len() <= 0xffff_ffff,
    ensures
        ({
            let found = announce_of(header.encoded);
            &&& found matches Some(a) && a.header == header && a.state is None && a.data is None
        }),
        ({
            let found = announce_of(header.encoded + (seq![byte] + scale_bytes(data) + rest));
            &&& found matches Some(a) && a.header == header && a.data == Some(data) && a.state
                == if byte == 0 {
                Some(BlockState::Normal)
            } else if byte == 1 {
                Some(BlockState::Best)
            } else {
                None
            }
            &&& announce_rest(header.encoded + (seq![byte] + scale_bytes(data) + rest)) == Some(
                rest,
            )
        }),
{
    let none = Seq::<u8>::empty();
    assert(header.encoded + none =~= header.encoded);
    assert(header_of(header.encoded + none) == Some((header.encoded, header.number)));
    assert(header.encoded.skip(header.encoded.len() as int) =~= none);
    lemma_no_bytes(none);
    let tail = seq![byte] + scale_bytes(data) + rest;
    let b = header.encoded + tail;
    assert(header_of(b) == Some((header.encoded, header.number)));
    assert(b.skip(header.encoded.len() as int) =~= tail);
    assert(tail.skip(1) =~= scale_bytes(data) + rest);
    lemma_bytes_round_trip(data, rest);
    assert((scale_bytes(data) + rest).skip(scale_bytes(data).len() as int) =~= rest);
}

/// An announcement is written as its header, then a byte for the state, if it has one, and
/// then its data with their length before them, if it has them.
pub proof fn announcements_on_the_wire(a: BlockAnnounceView)
    ensures
        a.state is None && a.data is None ==> announce_bytes(a) == a.header.encoded,
        a.state == Some(BlockState::Normal) && a.data is None ==> announce_bytes(a)
            == a.header.encoded.push(0),
        a.state == Some(BlockState::Best) && a.data is None ==> announce_bytes(a)
            == a.header.encoded.push(1),
        a.state is None && a.data is Some ==> announce_bytes(a) == a.header.encoded + scale_bytes(
            a.data->0,
        ),
        a.state == Some(BlockState::Normal) && a.data is Some ==> announce_bytes(a)
            == a.header.encoded.push(0) + scale_bytes(a.data->0),
        a.state == Some(BlockState::Best) && a.data is Some ==> announce_bytes(a)
            == a.header.encoded.push(1) + scale_bytes(a.data->0),
{
    assert(a.state == Some(BlockState::Normal) ==> a.header.encoded + seq![0u8]
        =~= a.header.encoded.push(0));
    assert(a.state == Some(BlockState::Best) ==> a.header.encoded + seq![1u8]
        =~= a.header.encoded.push(1));
    if a.state is None {
        assert(announce_bytes(a) =~= a.header.encoded + (match a.data {
            Some(data) => scale_bytes(data),
            None => Seq::empty(),
        }));
    }
    if a.data is None {
        assert(announce_bytes(a) =~= a.header.encoded + (match a.state {
            Some(state) => seq![state_byte(state)],
            None => Seq::empty(),
        }));
    }
}

/// An announcement stands for what its parts hold.
pub proof fn announcements_stand_for_their_parts(a: BlockAnnounce)
    ensures
        a@.header == a.header@,
        a@.state == a.state,
        a.data is None <==> a@.data is None,
        a.data matches Some(data) ==> a@.data == Some(data@),
{
}

} // verus!
