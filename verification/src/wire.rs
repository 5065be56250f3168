//! The protobuf wire format: keys, varints and length-delimited values.
//!
//! The coding of single values is that of `prost::encoding`; this module states
//! what each of those functions writes and reads, and proves that what is
//! written is read back.
use vstd::prelude::*;

verus! {

/// How the value behind a key is laid out.
#[derive(Clone, Copy, Debug, PartialEq, Eq, Structural)]
pub enum WireType {
    Varint,
    SixtyFourBit,
    LengthDelimited,
    StartGroup,
    EndGroup,
    ThirtyTwoBit,
}

/// Why a message could not be read.
#[derive(Clone, Copy, Debug, PartialEq, Eq, Structural)]
pub struct Malformed;

/// The error of `prost` on malformed input, carried as it comes.
#[verifier::external_type_specification]
#[verifier::external_body]
pub struct ExDecodeError(prost::DecodeError);

/// The number of values of an unsigned integer of 64 bits.
pub open spec fn two_64() -> nat {
    0x1_0000_0000_0000_0000
}

/// The little-endian base-128 form of a number; every byte but the last has its
/// high bit set.
pub open spec fn varint(v: nat) -> Seq<u8>
    decreases v,
{
    if v < 128 {
        seq![v as u8]
    } else {
        seq![(v % 128 + 128) as u8] + varint(v / 128)
    }
}

/// The number that a base-128 form at the front of `b` stands for, and how many
/// bytes it takes, if it ends within the first `limit` bytes.
pub open spec fn read_varint(b: Seq<u8>, limit: nat) -> Option<(nat, nat)>
    decreases limit,
{
    if limit == 0 || b.len() == 0 {
        None
    } else if b[0] < 128 {
        Some((b[0] as nat, 1))
    } else {
        match read_varint(b.skip(1), (limit - 1) as nat) {
            Some((v, n)) => Some(((b[0] - 128) as nat + 128 * v, n + 1)),
            None => None,
        }
    }
}

/// The varint at the front of `b`, taken modulo two to the 64th, and what
/// follows it. A varint has at most ten bytes.
pub open spec fn varint_of(b: Seq<u8>) -> Option<(nat, Seq<u8>)> {
    match read_varint(b, 10) {
        Some((v, n)) => Some((v % two_64(), b.skip(n as int))),
        None => None,
    }
}

/// The number that stands for a wire type within a key.
pub open spec fn wire_code(wire_type: WireType) -> nat {
    match wire_type {
        WireType::Varint => 0,
        WireType::SixtyFourBit => 1,
        WireType::LengthDelimited => 2,
        WireType::StartGroup => 3,
        WireType::EndGroup => 4,
        WireType::ThirtyTwoBit => 5,
    }
}

/// The wire type that a number stands for.
pub open spec fn wire_type_of(code: nat) -> Option<WireType> {
    if code == 0 {
        Some(WireType::Varint)
    } else if code == 1 {
        Some(WireType::SixtyFourBit)
    } else if code == 2 {
        Some(WireType::LengthDelimited)
    } else if code == 3 {
        Some(WireType::StartGroup)
    } else if code == 4 {
        Some(WireType::EndGroup)
    } else if code == 5 {
        Some(WireType::ThirtyTwoBit)
    } else {
        None
    }
}

/// The key of a field.
pub open spec fn key(tag: nat, wire_type: WireType) -> Seq<u8> {
    varint(8 * tag + wire_code(wire_type))
}

/// The tag and the wire type of the key at the front of `b`, and what follows it.
pub open spec fn key_of(b: Seq<u8>) -> Option<(nat, WireType, Seq<u8>)> {
    match varint_of(b) {
        Some((v, rest)) => if v > u32::MAX || v < 8 {
            None
        } else {
            match wire_type_of(v % 8) {
                Some(wire_type) => Some((v / 8, wire_type, rest)),
                None => None,
            }
        },
        None => None,
    }
}

/// The length-delimited bytes at the front of `b`, and what follows them.
pub open spec fn delimited_of(b: Seq<u8>) -> Option<(Seq<u8>, Seq<u8>)> {
    match varint_of(b) {
        Some((n, rest)) => if n <= rest.len() {
            Some((rest.take(n as int), rest.skip(n as int)))
        } else {
            None
        },
        None => None,
    }
}

/// The field that carries a number.
pub open spec fn number_field(tag: nat, v: nat) -> Seq<u8> {
    key(tag, WireType::Varint) + varint(v)
}

/// The field that carries bytes.
pub open spec fn bytes_field(tag: nat, value: Seq<u8>) -> Seq<u8> {
    key(tag, WireType::LengthDelimited) + varint(value.len()) + value
}

/// A signed integer of 32 bits, extended to 64 bits with its sign.
pub open spec fn sign_extended(v: i32) -> nat {
    if v >= 0 {
        v as nat
    } else {
        (v + two_64()) as nat
    }
}

/// The low 32 bits of a number, as an unsigned integer.
pub open spec fn low_u32(v: nat) -> nat {
    v % 0x1_0000_0000
}

/// The low 32 bits of a number, as a signed integer.
pub open spec fn low_i32(v: nat) -> int {
    if low_u32(v) < 0x8000_0000 {
        low_u32(v) as int
    } else {
        low_u32(v) - 0x1_0000_0000
    }
}

/// What `prost::encoding::skip_field` leaves of its input behind the start of a
/// group: all up to the key that ends the group with the same tag is skipped.
pub uninterp spec fn after_group(tag: u32, b: Seq<u8>) -> Option<Seq<u8>>;

/// Whether `merge_length_delimited` of `()` as a `prost::Message` takes a byte string: a
/// length, then as many bytes, as a message within another whose fields are all skipped.
pub uninterp spec fn skipped_within(b: Seq<u8>) -> bool;

/// What is left of `b` behind a field whose value is not wanted.
pub open spec fn after_skipped(tag: u32, wire_type: WireType, b: Seq<u8>) -> Option<Seq<u8>> {
    match wire_type {
        WireType::Varint => match varint_of(b) {
            Some((v, rest)) => Some(rest),
            None => None,
        },
        WireType::SixtyFourBit => if b.len() >= 8 {
            Some(b.skip(8))
        } else {
            None
        },
        WireType::LengthDelimited => match delimited_of(b) {
            Some((value, rest)) => Some(rest),
            None => None,
        },
        WireType::StartGroup => after_group(tag, b),
        WireType::EndGroup => None,
        WireType::ThirtyTwoBit => if b.len() >= 4 {
            Some(b.skip(4))
        } else {
            None
        },
    }
}

/// `prost::encoding::uint32::encode`: appends the key of the field, then the
/// number as a varint.
#[verifier::external_body]
pub(crate) fn encode_uint32(tag: u32, value: u32, buf: &mut Vec<u8>)
    requires
        1 <= tag < 0x2000_0000,
    ensures
        final(buf)@ == old(buf)@ + number_field(tag as nat, value as nat),
{
    prost::encoding::uint32::encode(tag, &value, buf)
}

/// `prost::encoding::int32::encode`: appends the key of the field, then the
/// number, extended to 64 bits, as a varint.
#[verifier::external_body]
pub(crate) fn encode_int32(tag: u32, value: i32, buf: &mut Vec<u8>)
    requires
        1 <= tag < 0x2000_0000,
    ensures
        final(buf)@ == old(buf)@ + number_field(tag as nat, sign_extended(value)),
{
    prost::encoding::int32::encode(tag, &value, buf)
}

/// `prost::encoding::bool::encode`: appends the key of the field, then 1 for
/// true or 0 for false.
#[verifier::external_body]
pub(crate) fn encode_bool(tag: u32, value: bool, buf: &mut Vec<u8>)
    requires
        1 <= tag < 0x2000_0000,
    ensures
        final(buf)@ == old(buf)@ + number_field(tag as nat, if value { 1 } else { 0 }),
{
    prost::encoding::bool::encode(tag, &value, buf)
}

/// `prost::encoding::bytes::encode`: appends the key of the field, then the
/// length as a varint, then the bytes.
#[verifier::external_body]
pub(crate) fn encode_bytes(tag: u32, value: &Vec<u8>, buf: &mut Vec<u8>)
    requires
        1 <= tag < 0x2000_0000,
    ensures
        final(buf)@ == old(buf)@ + bytes_field(tag as nat, value@),
{
    prost::encoding::bytes::encode(tag, value, buf)
}

/// `prost::encoding::decode_key`: reads a key. It fails where no varint is at
/// the front, where the key does not fit 32 bits, where its wire type is none of
/// the six, or where its tag is zero.
#[verifier::external_body]
pub(crate) fn decode_key<'a>(buf: &'a [u8]) -> (r: Result<
    (u32, WireType, &'a [u8]),
    prost::DecodeError,
>)
    ensures
        match r {
            Ok((tag, wire_type, rest)) => key_of(buf@) == Some((tag as nat, wire_type, rest@)),
            Err(_) => key_of(buf@) is None,
        },
{
    let mut rest = buf;
    let (tag, wire_type) = prost::encoding::decode_key(&mut rest)?;
    let wire_type = match wire_type {
        prost::encoding::WireType::Varint => WireType::Varint,
        prost::encoding::WireType::SixtyFourBit => WireType::SixtyFourBit,
        prost::encoding::WireType::LengthDelimited => WireType::LengthDelimited,
        prost::encoding::WireType::StartGroup => WireType::StartGroup,
        prost::encoding::WireType::EndGroup => WireType::EndGroup,
        prost::encoding::WireType::ThirtyTwoBit => WireType::ThirtyTwoBit,
    };
    Ok((tag, wire_type, rest))
}

/// `prost::encoding::uint32::merge` on a value laid out as a varint: reads the
/// varint and keeps its low 32 bits.
#[verifier::external_body]
pub(crate) fn merge_uint32<'a>(buf: &'a [u8]) -> (r: Result<(u32, &'a [u8]), prost::DecodeError>)
    ensures
        match (varint_of(buf@), r) {
            (Some((v, after)), Ok((value, rest))) => value == low_u32(v) && rest@ == after,
            (None, Err(_)) => true,
            _ => false,
        },
{
    let mut rest = buf;
    let mut value = 0u32;
    let wire_type = prost::encoding::WireType::Varint;
    prost::encoding::uint32::merge(wire_type, &mut value, &mut rest, Default::default())?;
    Ok((value, rest))
}

/// `prost::encoding::int32::merge` on a value laid out as a varint: reads the
/// varint and keeps its low 32 bits, as a signed number.
#[verifier::external_body]
pub(crate) fn merge_int32<'a>(buf: &'a [u8]) -> (r: Result<(i32, &'a [u8]), prost::DecodeError>)
    ensures
        match (varint_of(buf@), r) {
            (Some((v, after)), Ok((value, rest))) => value == low_i32(v) && rest@ == after,
            (None, Err(_)) => true,
            _ => false,
        },
{
    let mut rest = buf;
    let mut value = 0i32;
    let wire_type = prost::encoding::WireType::Varint;
    prost::encoding::int32::merge(wire_type, &mut value, &mut rest, Default::default())?;
    Ok((value, rest))
}

/// `prost::encoding::bool::merge` on a value laid out as a varint: reads the
/// varint; anything but zero is true.
#[verifier::external_body]
pub(crate) fn merge_bool<'a>(buf: &'a [u8]) -> (r: Result<(bool, &'a [u8]), prost::DecodeError>)
    ensures
        match (varint_of(buf@), r) {
            (Some((v, after)), Ok((value, rest))) => value == (v != 0) && rest@ == after,
            (None, Err(_)) => true,
            _ => false,
        },
{
    let mut rest = buf;
    let mut value = false;
    let wire_type = prost::encoding::WireType::Varint;
    prost::encoding::bool::merge(wire_type, &mut value, &mut rest, Default::default())?;
    Ok((value, rest))
}

/// `prost::encoding::bytes::merge` on a length-delimited value: reads the length
/// as a varint, then as many bytes. It fails where fewer are left.
#[verifier::external_body]
pub(crate) fn merge_bytes<'a>(buf: &'a [u8]) -> (r: Result<
    (Vec<u8>, &'a [u8]),
    prost::DecodeError,
>)
    ensures
        match r {
            Ok((value, rest)) => delimited_of(buf@) == Some((value@, rest@)),
            Err(_) => delimited_of(buf@) is None,
        },
{
    let mut rest = buf;
    let mut value: Vec<u8> = Vec::new();
    let wire_type = prost::encoding::WireType::LengthDelimited;
    prost::encoding::bytes::merge(wire_type, &mut value, &mut rest, Default::default())?;
    Ok((value, rest))
}

/// `prost::encoding::skip_field`: passes over a value of any wire type. What it
/// passes over is stated for every wire type but a group, whose result has a
/// name; what is left is never longer than the input.
#[verifier::external_body]
pub(crate) fn skip_field<'a>(tag: u32, wire_type: WireType, buf: &'a [u8]) -> (r: Result<
    &'a [u8],
    prost::DecodeError,
>)
    ensures
        wire_type is StartGroup ==> match r {
            Ok(rest) => after_group(tag, buf@) == Some(rest@),
            Err(_) => after_group(tag, buf@) is None,
        },
        !(wire_type is StartGroup) ==> match r {
            Ok(rest) => after_skipped(tag, wire_type, buf@) == Some(rest@),
            Err(_) => after_skipped(tag, wire_type, buf@) is None,
        },
        r matches Ok(rest) ==> rest@.len() <= buf@.len(),
{
    let mut rest = buf;
    let wire_type = match wire_type {
        WireType::Varint => prost::encoding::WireType::Varint,
        WireType::SixtyFourBit => prost::encoding::WireType::SixtyFourBit,
        WireType::LengthDelimited => prost::encoding::WireType::LengthDelimited,
        WireType::StartGroup => prost::encoding::WireType::StartGroup,
        WireType::EndGroup => prost::encoding::WireType::EndGroup,
        WireType::ThirtyTwoBit => prost::encoding::WireType::ThirtyTwoBit,
    };
    prost::encoding::skip_field(wire_type, tag, &mut rest, Default::default())?;
    Ok(rest)
}

/// `merge_length_delimited` of `()` as a `prost::Message`: skips the fields of a message
/// that stands within another, behind its length. Groups in it may be nested one level less
/// deep than elsewhere. Whether it succeeds depends on the bytes alone.
#[verifier::external_body]
pub(crate) fn skip_within(buf: &[u8]) -> (r: Result<(), prost::DecodeError>)
    ensures
        r is Ok == skipped_within(buf@),
{
    prost::Message::merge_length_delimited(&mut (), buf)
}

/// The varint at the front of a byte string takes at least one byte of it.
proof fn lemma_read_varint_bounds(b: Seq<u8>, limit: nat)
    ensures
        read_varint(b, limit) matches Some((v, n)) ==> 1 <= n <= b.len(),
    decreases limit,
{
    if limit > 0 && b.len() > 0 && b[0] >= 128 {
        lemma_read_varint_bounds(b.skip(1), (limit - 1) as nat);
    }
}

/// Reading a varint leaves less than there was.
pub proof fn lemma_varint_shortens(b: Seq<u8>)
    ensures
        varint_of(b) matches Some((v, rest)) ==> rest.len() < b.len(),
{
    lemma_read_varint_bounds(b, 10);
}

/// How long a varint is: each byte carries seven bits.
proof fn lemma_varint_len(v: nat, k: nat)
    requires
        v < vstd::arithmetic::power::pow(128, k),
        k > 0,
    ensures
        1 <= varint(v).len() <= k,
    decreases k,
{
    vstd::arithmetic::power::lemma_pow1(128);
    if v >= 128 {
        if k == 1 {
            assert(false);
        }
        vstd::arithmetic::power::lemma_pow_adds(128, (k - 1) as nat, 1);
        let p = vstd::arithmetic::power::pow(128, (k - 1) as nat);
        assert(v < p * 128);
        assert(v / 128 < p);
        lemma_varint_len(v / 128, (k - 1) as nat);
    }
}

/// A varint of a 64-bit number takes at most ten bytes.
proof fn lemma_varint_fits(v: nat)
    requires
        v < two_64(),
    ensures
        1 <= varint(v).len() <= 10,
{
    reveal_with_fuel(vstd::arithmetic::power::pow, 11);
    assert(vstd::arithmetic::power::pow(128, 10) == 0x40_0000_0000_0000_0000int);
    lemma_varint_len(v, 10);
}

proof fn lemma_read_written(v: nat, rest: Seq<u8>, limit: nat)
    requires
        varint(v).len() <= limit,
    ensures
        read_varint(varint(v) + rest, limit) == Some((v, varint(v).len())),
    decreases v,
{
    let b = varint(v) + rest;
    if v >= 128 {
        lemma_read_written(v / 128, rest, (limit - 1) as nat);
        assert(b.skip(1) =~= varint(v / 128) + rest);
        assert(b[0] == (v % 128 + 128) as u8);
    } else {
        assert(b[0] == v as u8);
    }
}

/// What is written as a varint is read back, and the rest is left.
pub proof fn lemma_varint_round_trip(v: nat, rest: Seq<u8>)
    requires
        v < two_64(),
    ensures
        varint_of(varint(v) + rest) == Some((v, rest)),
{
    lemma_varint_fits(v);
    lemma_read_written(v, rest, 10);
    assert((varint(v) + rest).skip(varint(v).len() as int) =~= rest);
}

/// What is written as a key is read back, and the rest is left.
pub proof fn lemma_key_round_trip(tag: nat, wire_type: WireType, rest: Seq<u8>)
    requires
        1 <= tag < 0x2000_0000,
    ensures
        key_of(key(tag, wire_type) + rest) == Some((tag, wire_type, rest)),
{
    lemma_varint_round_trip(8 * tag + wire_code(wire_type), rest);
}

/// What is written as length-delimited bytes is read back, and the rest is left.
pub proof fn lemma_delimited_round_trip(value: Seq<u8>, rest: Seq<u8>)
    requires
        value.len() < two_64(),
    ensures
        delimited_of(varint(value.len()) + value + rest) == Some((value, rest)),
{
    assert(varint(value.len()) + value + rest =~= varint(value.len()) + (value + rest));
    lemma_varint_round_trip(value.len(), value + rest);
    assert((value + rest).take(value.len() as int) =~= value);
    assert((value + rest).skip(value.len() as int) =~= rest);
}

} // verus!
