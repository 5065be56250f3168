//! SCALE, the encoding of values within blocks and announcements.
//!
//! The coding of single values is that of `parity_scale_codec`; this module
//! states what each call writes and reads.
use crate::octets::views;
use vstd::prelude::*;

verus! {

/// Why a value could not be read.
#[derive(Clone, Copy, Debug, PartialEq, Eq, Structural)]
pub enum CodecError {
    /// The input is not the encoding of such a value.
    Malformed,
    /// A byte stands for none of the variants of an enumeration.
    NoVariant,
    /// A byte has a bit that stands for no block attribute.
    InvalidBytes,
    /// A word holds a bit that stands for no block attribute.
    InvalidBlockAttributes,
}

/// What is said of a value that could not be read.
pub open spec fn codec_text(e: CodecError) -> Seq<char> {
    match e {
        CodecError::Malformed => "malformed input"@,
        CodecError::NoVariant => "No variant"@,
        CodecError::InvalidBytes => "Invalid bytes"@,
        CodecError::InvalidBlockAttributes => "Invalid BlockAttributes"@,
    }
}

impl CodecError {
    /// What is said of the error.
    pub fn message(&self) -> (text: &'static str)
        ensures
            text@ == codec_text(*self),
            *self is Malformed ==> text@ == "malformed input"@,
            *self is NoVariant ==> text@ == "No variant"@,
            *self is InvalidBytes ==> text@ == "Invalid bytes"@,
            *self is InvalidBlockAttributes ==> text@ == "Invalid BlockAttributes"@,
    {
        match self {
            CodecError::Malformed => "malformed input",
            CodecError::NoVariant => "No variant",
            CodecError::InvalidBytes => "Invalid bytes",
            CodecError::InvalidBlockAttributes => "Invalid BlockAttributes",
        }
    }
}

/// The error of `parity_scale_codec` on malformed input, carried as it comes.
#[verifier::external_type_specification]
#[verifier::external_body]
pub struct ExCodecError(parity_scale_codec::Error);

/// The low two bytes of a number, the least significant first.
pub open spec fn le_16(v: nat) -> Seq<u8> {
    seq![(v % 256) as u8, (v / 256 % 256) as u8]
}

/// The low four bytes of a number, the least significant first.
pub open spec fn le_32(v: nat) -> Seq<u8> {
    seq![
        (v % 256) as u8,
        (v / 256 % 256) as u8,
        (v / 65536 % 256) as u8,
        (v / 16777216 % 256) as u8,
    ]
}

/// The low eight bytes of a number, the least significant first.
pub open spec fn le_64(v: nat) -> Seq<u8> {
    le_32(v % 0x1_0000_0000) + le_32(v / 0x1_0000_0000)
}

/// The compact form of a number of 32 bits: the two low bits of the first byte
/// tell whether one, two, four or five bytes are used, and the fewest are.
pub open spec fn compact(n: nat) -> Seq<u8> {
    if n < 64 {
        seq![(4 * n) as u8]
    } else if n < 16384 {
        le_16(4 * n + 1)
    } else if n < 0x4000_0000 {
        le_32(4 * n + 2)
    } else {
        seq![3u8] + le_32(n)
    }
}

/// The encoding of a byte string: its length in compact form, then its bytes.
pub open spec fn scale_bytes(data: Seq<u8>) -> Seq<u8> {
    compact(data.len()) + data
}

/// Whether the encoding of `data` is at the front of `b`.
pub open spec fn bytes_at(b: Seq<u8>, data: Seq<u8>) -> bool {
    data.len() <= u32::MAX && scale_bytes(data).is_prefix_of(b)
}

/// The byte string whose encoding is at the front of `b`.
pub open spec fn bytes_of(b: Seq<u8>) -> Option<Seq<u8>> {
    if exists|data: Seq<u8>| bytes_at(b, data) {
        Some(choose|data: Seq<u8>| bytes_at(b, data))
    } else {
        None
    }
}

/// The encodings of byte strings, one after the other.
pub open spec fn scale_items(list: Seq<Seq<u8>>) -> Seq<u8>
    decreases list.len(),
{
    if list.len() == 0 {
        Seq::empty()
    } else {
        scale_bytes(list[0]) + scale_items(list.drop_first())
    }
}

/// The encoding of a list of byte strings: its length in compact form, then the encoding
/// of each.
pub open spec fn scale_list(list: Seq<Seq<u8>>) -> Seq<u8> {
    compact(list.len()) + scale_items(list)
}

/// Whether the lengths in a list of byte strings fit their encodings.
pub open spec fn fits_list(list: Seq<Seq<u8>>) -> bool {
    list.len() <= u32::MAX && forall|i: int|
        0 <= i < list.len() ==> (#[trigger] list[i]).len() <= u32::MAX
}

/// What is left of `b` where no byte string can be read at its front.
pub uninterp spec fn unread_bytes(b: Seq<u8>) -> Seq<u8>;

/// What is left of `b` once a byte string was asked for: what follows its encoding. Where
/// there is none, some bytes at the front of `b` may be gone all the same.
pub open spec fn behind_bytes(b: Seq<u8>) -> Seq<u8> {
    match bytes_of(b) {
        Some(data) => b.skip(scale_bytes(data).len() as int),
        None => if b.len() == 0 {
            b
        } else {
            unread_bytes(b)
        },
    }
}

/// The hash at the front of `b`.
pub open spec fn hash_of(b: Seq<u8>) -> Option<Seq<u8>> {
    if b.len() >= 32 {
        Some(b.take(32))
    } else {
        None
    }
}

/// The number whose four bytes are at the front of `b`.
pub open spec fn number_of(b: Seq<u8>) -> Option<nat> {
    if b.len() >= 4 {
        Some((b[0] + 256 * b[1] + 65536 * b[2] + 16777216 * b[3]) as nat)
    } else {
        None
    }
}

/// `parity_scale_codec::Encode::encode` of an array of 32 bytes: the bytes
/// themselves.
#[verifier::external_body]
pub(crate) fn encode_hash(hash: &[u8; 32]) -> (r: Vec<u8>)
    ensures
        r@ == hash@,
{
    parity_scale_codec::Encode::encode(hash)
}

/// `parity_scale_codec::Decode::decode` of an array of 32 bytes: the first 32
/// bytes of the input, and the rest is left. It fails where there are fewer.
#[verifier::external_body]
pub(crate) fn decode_hash<'a>(input: &'a [u8]) -> (r: Result<
    ([u8; 32], &'a [u8]),
    parity_scale_codec::Error,
>)
    ensures
        match r {
            Ok((hash, rest)) => hash_of(input@) == Some(hash@) && rest@ == input@.skip(32),
            Err(_) => hash_of(input@) is None,
        },
{
    let mut rest = input;
    let hash = parity_scale_codec::Decode::decode(&mut rest)?;
    Ok((hash, rest))
}

/// `parity_scale_codec::Encode::encode` of an unsigned number of 32 bits: its
/// four bytes, the least significant first.
#[verifier::external_body]
pub(crate) fn encode_number(number: u32) -> (r: Vec<u8>)
    ensures
        r@ == le_32(number as nat),
{
    parity_scale_codec::Encode::encode(&number)
}

/// `parity_scale_codec::Decode::decode` of an unsigned number of 32 bits: the
/// first four bytes of the input, the least significant first, and the rest is left. It
/// fails where there are fewer.
#[verifier::external_body]
pub(crate) fn decode_number<'a>(input: &'a [u8]) -> (r: Result<
    (u32, &'a [u8]),
    parity_scale_codec::Error,
>)
    ensures
        match r {
            Ok((number, rest)) => number_of(input@) == Some(number as nat) && rest@ == input@.skip(
                4,
            ),
            Err(_) => number_of(input@) is None,
        },
{
    let mut rest = input;
    let number = parity_scale_codec::Decode::decode(&mut rest)?;
    Ok((number, rest))
}

/// `parity_scale_codec::Encode::encode` of an unsigned number of 64 bits: its
/// eight bytes, the least significant first.
#[verifier::external_body]
pub(crate) fn encode_id(id: u64) -> (r: Vec<u8>)
    ensures
        r@ == le_64(id as nat),
{
    parity_scale_codec::Encode::encode(&id)
}

/// `parity_scale_codec::Decode::decode` of an unsigned number of 64 bits: the
/// first eight bytes of the input, the least significant first, and the rest is left. It
/// fails where there are fewer.
#[verifier::external_body]
pub(crate) fn decode_id<'a>(input: &'a [u8]) -> (r: Result<
    (u64, &'a [u8]),
    parity_scale_codec::Error,
>)
    ensures
        match r {
            Ok((id, rest)) => input@ == le_64(id as nat) + rest@,
            Err(_) => input@.len() < 8,
        },
{
    let mut rest = input;
    let id = parity_scale_codec::Decode::decode(&mut rest)?;
    Ok((id, rest))
}

/// `parity_scale_codec::Encode::encode` of a byte string: its length in compact
/// form, then its bytes. It panics where the length does not fit 32 bits.
#[verifier::external_body]
pub(crate) fn encode_bytes(data: &Vec<u8>) -> (r: Vec<u8>)
    requires
        data@.len() <= u32::MAX,
    ensures
        r@ == scale_bytes(data@),
{
    parity_scale_codec::Encode::encode(data)
}

/// `parity_scale_codec::Decode::decode` of a byte string: reads a length in
/// compact form, then as many bytes, and leaves the rest. It fails where fewer are left,
/// and where the length is not in its shortest form; how much of the length is taken from
/// the input then depends on the input alone, and the input never grows.
#[verifier::external_body]
pub(crate) fn decode_bytes<'a>(input: &'a [u8]) -> (r: (
    Result<Vec<u8>, parity_scale_codec::Error>,
    &'a [u8],
))
    ensures
        match r.0 {
            Ok(data) => bytes_at(input@, data@) && r.1@ == input@.skip(
                scale_bytes(data@).len() as int,
            ),
            Err(_) => (forall|data: Seq<u8>| !bytes_at(input@, data)) && r.1@ == unread_bytes(
                input@,
            ) && r.1@.len() <= input@.len(),
        },
{
    let mut rest = input;
    let data = parity_scale_codec::Decode::decode(&mut rest);
    (data, rest)
}

/// `parity_scale_codec::Encode::encode` of a list of byte strings: its length in compact
/// form, then the encoding of each. It panics where a length does not fit 32 bits.
#[verifier::external_body]
pub(crate) fn encode_list(list: &Vec<Vec<u8>>) -> (r: Vec<u8>)
    requires
        fits_list(views(list@)),
    ensures
        r@ == scale_list(views(list@)),
{
    parity_scale_codec::Encode::encode(list)
}

/// `parity_scale_codec::Decode::decode` of a list of byte strings: reads a length in
/// compact form, then as many byte strings, and leaves the rest. It fails where the length
/// or one of the byte strings cannot be read.
#[verifier::external_body]
pub(crate) fn decode_list<'a>(input: &'a [u8]) -> (r: Result<
    (Vec<Vec<u8>>, &'a [u8]),
    parity_scale_codec::Error,
>)
    ensures
        match r {
            Ok((list, rest)) => fits_list(views(list@)) && input@ == scale_list(views(list@))
                + rest@,
            Err(_) => forall|list: Seq<Seq<u8>>, rest: Seq<u8>|
                fits_list(list) ==> input@ != #[trigger] (scale_list(list) + rest),
        },
{
    let mut rest = input;
    let list = parity_scale_codec::Decode::decode(&mut rest)?;
    Ok((list, rest))
}

/// Which of the four compact forms a number takes.
spec fn compact_mode(n: nat) -> nat {
    if n < 64 {
        0
    } else if n < 16384 {
        1
    } else if n < 0x4000_0000 {
        2
    } else {
        3
    }
}

proof fn lemma_compact_mode(n: nat)
    requires
        n <= u32::MAX,
    ensures
        compact(n)[0] as nat % 4 == compact_mode(n),
{
    assert((4 * n + 1) % 256 % 4 == 1);
    assert((4 * n + 2) % 256 % 4 == 2);
}

proof fn lemma_le_16_value(v: nat)
    requires
        v < 65536,
    ensures
        v == le_16(v)[0] + 256 * le_16(v)[1],
{
}

proof fn lemma_le_32_value(v: nat)
    requires
        v <= u32::MAX,
    ensures
        v == le_32(v)[0] + 256 * le_32(v)[1] + 65536 * le_32(v)[2] + 16777216 * le_32(v)[3],
{
    assert(v == v % 256 + 256 * (v / 256 % 256) + 65536 * (v / 65536 % 256) + 16777216 * (v
        / 16777216 % 256));
}

proof fn lemma_le_32_unique(v: nat, w: nat)
    requires
        v <= u32::MAX,
        w <= u32::MAX,
        le_32(v) == le_32(w),
    ensures
        v == w,
{
    lemma_le_32_value(v);
    lemma_le_32_value(w);
}

/// No compact form is the beginning of another.
proof fn lemma_compact_prefix_free(n: nat, m: nat, x: Seq<u8>, y: Seq<u8>)
    requires
        n <= u32::MAX,
        m <= u32::MAX,
        compact(n) + x == compact(m) + y,
    ensures
        n == m,
{
    let a = compact(n) + x;
    let b = compact(m) + y;
    assert(compact_mode(n) == compact_mode(m)) by {
        lemma_compact_mode(n);
        lemma_compact_mode(m);
        assert(a[0] == compact(n)[0]);
        assert(b[0] == compact(m)[0]);
    }
    assert(compact(n).len() == compact(m).len());
    assert(compact(n) == compact(m)) by {
        assert(a.take(compact(n).len() as int) =~= compact(n));
        assert(b.take(compact(m).len() as int) =~= compact(m));
    }
    if n < 64 {
        assert(compact(n)[0] == compact(m)[0]);
    } else if n < 16384 {
        lemma_le_16_value(4 * n + 1);
        lemma_le_16_value(4 * m + 1);
    } else if n < 0x4000_0000 {
        lemma_le_32_value(4 * n + 2);
        lemma_le_32_value(4 * m + 2);
    } else {
        lemma_le_32_value(n);
        lemma_le_32_value(m);
        assert(compact(n).skip(1) =~= le_32(n));
        assert(compact(m).skip(1) =~= le_32(m));
    }
}

/// At most one byte string has its encoding at the front of `b`.
pub proof fn lemma_bytes_at_unique(b: Seq<u8>, d: Seq<u8>, e: Seq<u8>)
    requires
        bytes_at(b, d),
        bytes_at(b, e),
    ensures
        d == e,
{
    let x = b.skip(scale_bytes(d).len() as int);
    let y = b.skip(scale_bytes(e).len() as int);
    assert(b =~= compact(d.len()) + (d + x)) by {
        assert(b =~= scale_bytes(d) + x);
    }
    assert(b =~= compact(e.len()) + (e + y)) by {
        assert(b =~= scale_bytes(e) + y);
    }
    lemma_compact_prefix_free(d.len(), e.len(), d + x, e + y);
    let k = compact(d.len()).len() as int;
    assert(d =~= b.subrange(k, k + d.len()));
    assert(e =~= b.subrange(k, k + e.len()));
}

/// Parts of the same length at the front of a byte string are the same.
pub proof fn lemma_fronts(a: Seq<u8>, b: Seq<u8>, x: Seq<u8>, y: Seq<u8>)
    requires
        a.len() == b.len(),
        a + x == b + y,
    ensures
        a == b,
        x == y,
{
    let k = a.len() as int;
    assert((a + x).take(k) =~= a);
    assert((b + y).take(k) =~= b);
    assert((a + x).skip(k) =~= x);
    assert((b + y).skip(k) =~= y);
}

/// The encoding of a number of 64 bits stands for that number alone.
pub proof fn lemma_id_unique(a: u64, b: u64, x: Seq<u8>, y: Seq<u8>)
    requires
        le_64(a as nat) + x == le_64(b as nat) + y,
    ensures
        a == b,
        x == y,
{
    let (m, n) = (a as nat, b as nat);
    lemma_fronts(le_64(m), le_64(n), x, y);
    let (low, high) = (m % 0x1_0000_0000, m / 0x1_0000_0000);
    let (other_low, other_high) = (n % 0x1_0000_0000, n / 0x1_0000_0000);
    lemma_fronts(le_32(low), le_32(other_low), le_32(high), le_32(other_high));
    lemma_le_32_unique(low, other_low);
    lemma_le_32_unique(high, other_high);
}

/// The encoding of a number of 32 bits stands for that number alone.
pub proof fn lemma_number_unique(a: u32, b: u32, x: Seq<u8>, y: Seq<u8>)
    requires
        le_32(a as nat) + x == le_32(b as nat) + y,
    ensures
        a == b,
        x == y,
{
    lemma_fronts(le_32(a as nat), le_32(b as nat), x, y);
    lemma_le_32_unique(a as nat, b as nat);
}

/// The encoding of a byte string stands for that byte string alone.
pub proof fn lemma_bytes_unique(d: Seq<u8>, e: Seq<u8>, x: Seq<u8>, y: Seq<u8>)
    requires
        d.len() <= u32::MAX,
        e.len() <= u32::MAX,
        scale_bytes(d) + x == scale_bytes(e) + y,
    ensures
        d == e,
        x == y,
{
    assert(bytes_at(scale_bytes(d) + x, d));
    assert(bytes_at(scale_bytes(e) + y, e));
    lemma_bytes_at_unique(scale_bytes(d) + x, d, e);
    lemma_fronts(scale_bytes(d), scale_bytes(e), x, y);
}

proof fn lemma_items_unique(d: Seq<Seq<u8>>, e: Seq<Seq<u8>>, x: Seq<u8>, y: Seq<u8>)
    requires
        fits_list(d),
        fits_list(e),
        d.len() == e.len(),
        scale_items(d) + x == scale_items(e) + y,
    ensures
        d == e,
        x == y,
    decreases d.len(),
{
    if d.len() == 0 {
        assert(d =~= e);
        assert(scale_items(d) + x =~= x);
        assert(scale_items(e) + y =~= y);
    } else {
        let (f, g) = (d.drop_first(), e.drop_first());
        assert(scale_items(d) + x =~= scale_bytes(d[0]) + (scale_items(f) + x));
        assert(scale_items(e) + y =~= scale_bytes(e[0]) + (scale_items(g) + y));
        lemma_bytes_unique(d[0], e[0], scale_items(f) + x, scale_items(g) + y);
        assert forall|i: int| 0 <= i < f.len() implies (#[trigger] f[i]).len() <= u32::MAX by {
            assert(f[i] == d[i + 1]);
        }
        assert forall|i: int| 0 <= i < g.len() implies (#[trigger] g[i]).len() <= u32::MAX by {
            assert(g[i] == e[i + 1]);
        }
        lemma_items_unique(f, g, x, y);
        assert(d =~= seq![d[0]] + f);
        assert(e =~= seq![e[0]] + g);
    }
}

/// The encoding of a list of byte strings stands for that list alone.
pub proof fn lemma_list_unique(d: Seq<Seq<u8>>, e: Seq<Seq<u8>>, x: Seq<u8>, y: Seq<u8>)
    requires
        fits_list(d),
        fits_list(e),
        scale_list(d) + x == scale_list(e) + y,
    ensures
        d == e,
        x == y,
{
    assert(scale_list(d) + x =~= compact(d.len()) + (scale_items(d) + x));
    assert(scale_list(e) + y =~= compact(e.len()) + (scale_items(e) + y));
    lemma_compact_prefix_free(d.len(), e.len(), scale_items(d) + x, scale_items(e) + y);
    lemma_fronts(
        compact(d.len()),
        compact(e.len()),
        scale_items(d) + x,
        scale_items(e) + y,
    );
    lemma_items_unique(d, e, x, y);
}

/// What is written as a byte string is read back.
pub proof fn lemma_bytes_round_trip(data: Seq<u8>, rest: Seq<u8>)
    requires
        data.len() <= u32::MAX,
    ensures
        bytes_of(scale_bytes(data) + rest) == Some(data),
{
    let b = scale_bytes(data) + rest;
    assert(bytes_at(b, data));
    let found = choose|d: Seq<u8>| bytes_at(b, d);
    lemma_bytes_at_unique(b, data, found);
}

/// The bytes at the front of what a number was read from are its encoding.
pub proof fn lemma_number_read(b: Seq<u8>, number: u32)
    requires
        number_of(b) == Some(number as nat),
    ensures
        b == le_32(number as nat) + b.skip(4),
{
    let v = number as nat;
    assert(v / 256 == b[1] + 256 * b[2] + 65536 * b[3]);
    assert(v / 65536 == b[2] + 256 * b[3]);
    assert(v / 16777216 == b[3]);
    assert(b =~= le_32(v) + b.skip(4));
}

/// What is written as a number is read back.
pub proof fn lemma_number_round_trip(number: u32)
    ensures
        number_of(le_32(number as nat)) == Some(number as nat),
{
    lemma_le_32_value(number as nat);
}

/// A number is the sum of its bytes, each worth 256 times as much as the one before.
pub proof fn numbers_are_worth_their_bytes(number: u32, id: u64)
    ensures
        ({
            let b = le_32(number as nat);
            &&& b.len() == 4
            &&& number == b[0] + 0x100 * b[1] + 0x1_0000 * b[2] + 0x100_0000 * b[3]
        }),
        ({
            let b = le_64(id as nat);
            &&& b.len() == 8
            &&& id == b[0] + 0x100 * b[1] + 0x1_0000 * b[2] + 0x100_0000 * b[3] + 0x1_0000_0000 * (
            b[4] + 0x100 * b[5] + 0x1_0000 * b[6] + 0x100_0000 * b[7])
        }),
{
    lemma_le_32_value(number as nat);
    lemma_le_32_value(id as nat % 0x1_0000_0000);
    lemma_le_32_value(id as nat / 0x1_0000_0000);
}

/// A length takes one byte below 64, two below 16384, four below 1073741824, and five from
/// there on. The two lowest bits of the first byte tell which, and the rest of the bytes is
/// worth the length.
pub proof fn lengths_take_few_bytes(n: u32)
    ensures
        ({
            let b = compact(n as nat);
            &&& n < 64 ==> b.len() == 1 && b[0] == 4 * n
            &&& 64 <= n < 16384 ==> b.len() == 2 && b[0] + 0x100 * b[1] == 4 * n + 1
            &&& 16384 <= n < 1073741824 ==> b.len() == 4 && b[0] + 0x100 * b[1] + 0x1_0000 * b[2]
                + 0x100_0000 * b[3] == 4 * n + 2
            &&& 1073741824 <= n ==> b.len() == 5 && b[0] == 3 && b[1] + 0x100 * b[2] + 0x1_0000
                * b[3] + 0x100_0000 * b[4] == n
        }),
{
    let v = n as nat;
    if 64 <= n < 16384 {
        lemma_le_16_value(4 * v + 1);
    } else if 16384 <= n < 1073741824 {
        lemma_le_32_value(4 * v + 2);
    } else if n >= 1073741824 {
        lemma_le_32_value(v);
    }
}

/// A list of byte strings is encoded as its length and then each of them, one after the
/// other, with its own length before it.
pub proof fn lists_are_their_items(list: Seq<Seq<u8>>, item: Seq<u8>)
    ensures
        scale_bytes(item) == compact(item.len()) + item,
        scale_list(list) == compact(list.len()) + scale_items(list),
        scale_items(Seq::empty()).len() == 0,
        scale_items(list.push(item)) == scale_items(list) + (compact(item.len()) + item),
    decreases list.len(),
{
    let longer = list.push(item);
    if list.len() == 0 {
        assert(longer.drop_first() =~= Seq::<Seq<u8>>::empty());
        assert(scale_items(longer) =~= scale_bytes(item) + scale_items(longer.drop_first()));
        assert(scale_items(longer.drop_first()) =~= Seq::<u8>::empty());
        assert(scale_items(longer) =~= scale_items(list) + scale_bytes(item));
    } else {
        lists_are_their_items(list.drop_first(), item);
        assert(longer.drop_first() =~= list.drop_first().push(item));
        assert(scale_items(longer) =~= scale_items(list) + scale_bytes(item));
    }
}

/// What is read as a byte string, a hash or a number is at the front of the input, and where
/// it is there it is read.
pub proof fn values_are_read_from_the_front(b: Seq<u8>, data: Seq<u8>, rest: Seq<u8>)
    ensures
        bytes_of(b) matches Some(found) ==> found.len() <= 0xffff_ffff && (compact(found.len())
            + found).is_prefix_of(b) && behind_bytes(b) == b.skip(
            compact(found.len()).len() + found.len() as int,
        ),
        data.len() <= 0xffff_ffff ==> bytes_of(compact(data.len()) + data + rest) == Some(data)
            && behind_bytes(compact(data.len()) + data + rest) == rest,
        b.len() >= 32 ==> hash_of(b) == Some(b.take(32)),
        b.len() < 32 ==> hash_of(b) is None,
        b.len() >= 4 ==> number_of(b) == Some(
            (b[0] + 0x100 * b[1] + 0x1_0000 * b[2] + 0x100_0000 * b[3]) as nat,
        ),
        b.len() < 4 ==> number_of(b) is None,
{
    if let Some(found) = bytes_of(b) {
        assert(bytes_at(b, found));
    }
    if data.len() <= 0xffff_ffff {
        lemma_bytes_round_trip(data, rest);
        assert(scale_bytes(data) + rest == compact(data.len()) + data + rest);
        assert((scale_bytes(data) + rest).skip(scale_bytes(data).len() as int) =~= rest);
    }
}

} // verus!
