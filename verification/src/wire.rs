//! Fields of the protobuf wire format, and the calls into `prost` that write
//! and read them.
//!
//! A field is a key (its tag times eight plus its wire type, as a varint)
//! followed by its payload: a varint for wire type 0, a varint length and
//! that many bytes for wire type 2.
use vstd::prelude::*;
use vstd::utf8::*;
use crate::varint::{lemma_decode_varint_bytes, spec_decode_varint, varint_bytes};
use prost::encoding::{DecodeContext, WireType};

verus! {

#[verifier::external_type_specification]
#[verifier::external_body]
pub struct ExDecodeError(prost::DecodeError);

/// The largest field tag the format allows.
pub const MAX_TAG: u32 = 536870911;

/// The wire type of a varint field.
pub const WIRE_VARINT: u8 = 0;

/// The wire type of a length-delimited field.
pub const WIRE_LEN: u8 = 2;

/// The key of a field with this tag and wire type.
pub open spec fn key_bytes(tag: u32, wire: u8) -> Seq<u8> {
    varint_bytes((tag * 8 + wire) as nat)
}

/// A length-delimited field holding these bytes.
pub open spec fn bytes_field_bytes(tag: u32, data: Seq<u8>) -> Seq<u8> {
    key_bytes(tag, WIRE_LEN) + varint_bytes(data.len()) + data
}

/// A length-delimited field holding the UTF-8 encoding of these characters.
pub open spec fn string_field_bytes(tag: u32, text: Seq<char>) -> Seq<u8> {
    bytes_field_bytes(tag, encode_utf8(text))
}

/// A varint field holding this value.
pub open spec fn uint32_field_bytes(tag: u32, value: u32) -> Seq<u8> {
    key_bytes(tag, WIRE_VARINT) + varint_bytes(value as nat)
}

/// The key at the front of `s`: its tag, its wire type and its length. A key
/// must fit in 32 bits, name one of the six wire types and a tag of 1 or more.
pub open spec fn spec_decode_key(s: Seq<u8>) -> Option<(u32, u8, nat)> {
    match spec_decode_varint(s) {
        Some((key, n)) => if key > u32::MAX || key % 8 > 5 || key / 8 < 1 {
            None
        } else {
            Some(((key / 8) as u32, (key % 8) as u8, n))
        },
        None => None,
    }
}

/// A varint length at the front of `s` and that many bytes after it: the
/// bytes and the length of the whole.
pub open spec fn spec_length_delimited(s: Seq<u8>) -> Option<(Seq<u8>, nat)> {
    match spec_decode_varint(s) {
        Some((len, n)) => if len > s.len() - n {
            None
        } else {
            Some((s.subrange(n as int, n + len), (n + len) as nat))
        },
        None => None,
    }
}

/// The payload of a bytes field of wire type `wire` at the front of `s`.
pub open spec fn spec_bytes_field(wire: u8, s: Seq<u8>) -> Option<(Seq<u8>, nat)> {
    if wire != WIRE_LEN {
        None
    } else {
        spec_length_delimited(s)
    }
}

/// The payload of a string field of wire type `wire` at the front of `s`: it
/// must be well-formed UTF-8.
pub open spec fn spec_string_field(wire: u8, s: Seq<u8>) -> Option<(Seq<char>, nat)> {
    match spec_bytes_field(wire, s) {
        Some((data, n)) => if valid_utf8(data) {
            Some((decode_utf8(data), n))
        } else {
            None
        },
        None => None,
    }
}

/// The payload of a `uint32` field of wire type `wire` at the front of `s`: a
/// varint, of which the low 32 bits are kept.
pub open spec fn spec_uint32_field(wire: u8, s: Seq<u8>) -> Option<(u32, nat)> {
    if wire != WIRE_VARINT {
        None
    } else {
        match spec_decode_varint(s) {
            Some((v, n)) => Some((v as u32, n)),
            None => None,
        }
    }
}

/// How many bytes `prost::encoding::skip_field` passes over when it skips
/// the payload of a field of unknown tag, with this wire type and tag, at
/// the front of `bytes`; `None` where it fails. Only the start of a group
/// (wire type 3), which it skips through nested fields up to its matching
/// end, is left to this name; `spec_skip_field` states the other cases.
pub uninterp spec fn skipped_field_len(wire: u8, tag: u32, bytes: Seq<u8>) -> Option<nat>;

/// The wire type of an eight-byte field.
pub const WIRE_FIXED64: u8 = 1;

/// The wire type of the start of a group.
pub const WIRE_START_GROUP: u8 = 3;

/// The wire type of the end of a group.
pub const WIRE_END_GROUP: u8 = 4;

/// The wire type of a four-byte field.
pub const WIRE_FIXED32: u8 = 5;

/// How many bytes the payload of a field of unknown tag takes at the front
/// of `s`: a varint, eight bytes, a length-delimited run, or four bytes; an
/// end of group where none was opened fails; a group is skipped as far as
/// `skipped_field_len` says.
pub open spec fn spec_skip_field(wire: u8, tag: u32, s: Seq<u8>) -> Option<nat> {
    if wire == WIRE_VARINT {
        match spec_decode_varint(s) {
            Some((v, n)) => Some(n),
            None => None,
        }
    } else if wire == WIRE_FIXED64 {
        if s.len() >= 8 {
            Some(8nat)
        } else {
            None
        }
    } else if wire == WIRE_LEN {
        match spec_length_delimited(s) {
            Some((data, n)) => Some(n),
            None => None,
        }
    } else if wire == WIRE_START_GROUP {
        skipped_field_len(wire, tag, s)
    } else if wire == WIRE_FIXED32 {
        if s.len() >= 4 {
            Some(4nat)
        } else {
            None
        }
    } else {
        None
    }
}

/// `prost::encoding::string::encode`: appends the key of a length-delimited
/// field, the byte length of `value` as a varint, and the UTF-8 bytes of
/// `value`.
#[verifier::external_body]
pub(crate) fn put_string_field(tag: u32, value: &String, buf: &mut Vec<u8>)
    requires
        1 <= tag <= MAX_TAG,
    ensures
        final(buf)@ == old(buf)@ + string_field_bytes(tag, value@),
{
    prost::encoding::string::encode(tag, value, buf)
}

/// `prost::encoding::bytes::encode`: appends the key of a length-delimited
/// field, the length of `value` as a varint, and `value`.
#[verifier::external_body]
pub(crate) fn put_bytes_field(tag: u32, value: &Vec<u8>, buf: &mut Vec<u8>)
    requires
        1 <= tag <= MAX_TAG,
    ensures
        final(buf)@ == old(buf)@ + bytes_field_bytes(tag, value@),
{
    prost::encoding::bytes::encode(tag, value, buf)
}

/// `prost::encoding::uint32::encode`: appends the key of a varint field and
/// `value` as a varint.
#[verifier::external_body]
pub(crate) fn put_uint32_field(tag: u32, value: u32, buf: &mut Vec<u8>)
    requires
        1 <= tag <= MAX_TAG,
    ensures
        final(buf)@ == old(buf)@ + uint32_field_bytes(tag, value),
{
    prost::encoding::uint32::encode(tag, &value, buf)
}

/// `prost::encoding::decode_key`: reads the key at the front of `buf`, gives
/// its tag and wire type, and what follows it; fails where `spec_decode_key`
/// finds no key.
#[verifier::external_body]
pub(crate) fn take_key<'a>(buf: &'a [u8]) -> (r: Result<(u32, u8, &'a [u8]), prost::DecodeError>)
    ensures
        match spec_decode_key(buf@) {
            Some((tag, wire, n)) => r matches Ok((t, w, rest)) && t == tag && w == wire
                && rest@ == buf@.skip(n as int),
            None => r is Err,
        },
{
    let mut rest = buf;
    let (tag, wire) = prost::encoding::decode_key(&mut rest)?;
    Ok((tag, wire as u8, rest))
}

/// `prost::encoding::string::merge`: checks the wire type, reads a
/// length-delimited payload that must be UTF-8, replaces `value` by it and
/// gives what follows it.
#[verifier::external_body]
pub(crate) fn merge_string_field<'a>(wire: u8, value: &mut String, buf: &'a [u8]) -> (r: Result<
    &'a [u8],
    prost::DecodeError,
>)
    requires
        wire <= 5,
    ensures
        match spec_string_field(wire, buf@) {
            Some((text, n)) => r matches Ok(rest) && rest@ == buf@.skip(n as int) && final(value)@
                == text,
            None => r is Err,
        },
{
    let wire_type = WireType::try_from(u64::from(wire))?;
    let mut rest = buf;
    prost::encoding::string::merge(wire_type, value, &mut rest, DecodeContext::default())?;
    Ok(rest)
}

/// `prost::encoding::bytes::merge`: checks the wire type, reads a
/// length-delimited payload, replaces `value` by it and gives what follows.
#[verifier::external_body]
pub(crate) fn merge_bytes_field<'a>(wire: u8, value: &mut Vec<u8>, buf: &'a [u8]) -> (r: Result<
    &'a [u8],
    prost::DecodeError,
>)
    requires
        wire <= 5,
    ensures
        match spec_bytes_field(wire, buf@) {
            Some((data, n)) => r matches Ok(rest) && rest@ == buf@.skip(n as int) && final(value)@
                == data,
            None => r is Err,
        },
{
    let wire_type = WireType::try_from(u64::from(wire))?;
    let mut rest = buf;
    prost::encoding::bytes::merge(wire_type, value, &mut rest, DecodeContext::default())?;
    Ok(rest)
}

/// `prost::encoding::uint32::merge`: checks the wire type, reads a varint,
/// replaces `value` by its low 32 bits and gives what follows it.
#[verifier::external_body]
pub(crate) fn merge_uint32_field<'a>(wire: u8, value: &mut u32, buf: &'a [u8]) -> (r: Result<
    &'a [u8],
    prost::DecodeError,
>)
    requires
        wire <= 5,
    ensures
        match spec_uint32_field(wire, buf@) {
            Some((v, n)) => r matches Ok(rest) && rest@ == buf@.skip(n as int) && *final(value)
                == v,
            None => r is Err,
        },
{
    let wire_type = WireType::try_from(u64::from(wire))?;
    let mut rest = buf;
    prost::encoding::uint32::merge(wire_type, value, &mut rest, DecodeContext::default())?;
    Ok(rest)
}

/// `prost::encoding::skip_field`: passes over the payload of a field whose
/// tag the message does not know, as `spec_skip_field` says, and gives what
/// follows it; it never goes past the end of `buf`. How far it goes through
/// a group (nested fields, up to prost's recursion limit) is only named.
#[verifier::external_body]
pub(crate) fn skip_unknown_field<'a>(wire: u8, tag: u32, buf: &'a [u8]) -> (r: Result<
    &'a [u8],
    prost::DecodeError,
>)
    requires
        wire <= 5,
    ensures
        match if wire == WIRE_START_GROUP {
            skipped_field_len(wire, tag, buf@)
        } else {
            spec_skip_field(wire, tag, buf@)
        } {
            Some(n) => r matches Ok(rest) && n <= buf@.len() && rest@ == buf@.skip(n as int),
            None => r is Err,
        },
{
    let wire_type = WireType::try_from(u64::from(wire))?;
    let mut rest = buf;
    prost::encoding::skip_field(wire_type, tag, &mut rest, DecodeContext::default())?;
    Ok(rest)
}

/// Reading a key that was written for a valid tag and wire type gives them
/// back.
pub proof fn lemma_key_roundtrip(tag: u32, wire: u8, rest: Seq<u8>)
    requires
        1 <= tag <= MAX_TAG,
        wire <= 5,
    ensures
        spec_decode_key(key_bytes(tag, wire) + rest) == Some(
            (tag, wire, key_bytes(tag, wire).len()),
        ),
{
    let key = (tag * 8 + wire) as u64;
    lemma_decode_varint_bytes(key, rest);
    assert(key / 8 == tag && key % 8 == wire);
}

/// Reading a length-delimited field that was written for `data` gives back
/// its tag and `data`, and leaves what followed it.
pub proof fn lemma_bytes_field_roundtrip(tag: u32, data: Seq<u8>, rest: Seq<u8>)
    requires
        1 <= tag <= MAX_TAG,
        data.len() <= u64::MAX,
    ensures
        ({
            let f = bytes_field_bytes(tag, data);
            let kl = key_bytes(tag, WIRE_LEN).len();
            &&& spec_decode_key(f + rest) == Some((tag, WIRE_LEN, kl))
            &&& spec_bytes_field(WIRE_LEN, (f + rest).skip(kl as int)) == Some(
                (data, (f.len() - kl) as nat),
            )
            &&& (f + rest).skip(f.len() as int) == rest
        }),
{
    let key = key_bytes(tag, WIRE_LEN);
    let len = varint_bytes(data.len());
    let f = bytes_field_bytes(tag, data);
    assert(f + rest =~= key + (len + data + rest));
    lemma_key_roundtrip(tag, WIRE_LEN, len + data + rest);
    let after = (f + rest).skip(key.len() as int);
    assert(after =~= len + (data + rest));
    lemma_decode_varint_bytes(data.len() as u64, data + rest);
    assert(after.subrange(len.len() as int, (len.len() + data.len()) as int) =~= data);
    assert((f + rest).skip(f.len() as int) =~= rest);
}

/// Reading a string field that was written for `text` gives back its tag
/// and `text`, and leaves what followed it.
pub proof fn lemma_string_field_roundtrip(tag: u32, text: Seq<char>, rest: Seq<u8>)
    requires
        1 <= tag <= MAX_TAG,
        encode_utf8(text).len() <= u64::MAX,
    ensures
        ({
            let f = string_field_bytes(tag, text);
            let kl = key_bytes(tag, WIRE_LEN).len();
            &&& spec_decode_key(f + rest) == Some((tag, WIRE_LEN, kl))
            &&& spec_string_field(WIRE_LEN, (f + rest).skip(kl as int)) == Some(
                (text, (f.len() - kl) as nat),
            )
            &&& (f + rest).skip(f.len() as int) == rest
        }),
{
    lemma_bytes_field_roundtrip(tag, encode_utf8(text), rest);
    encode_utf8_valid_utf8(text);
    encode_utf8_decode_utf8(text);
}

/// Reading a `uint32` field that was written for `value` gives back its tag
/// and `value`, and leaves what followed it.
pub proof fn lemma_uint32_field_roundtrip(tag: u32, value: u32, rest: Seq<u8>)
    requires
        1 <= tag <= MAX_TAG,
    ensures
        ({
            let f = uint32_field_bytes(tag, value);
            let kl = key_bytes(tag, WIRE_VARINT).len();
            &&& spec_decode_key(f + rest) == Some((tag, WIRE_VARINT, kl))
            &&& spec_uint32_field(WIRE_VARINT, (f + rest).skip(kl as int)) == Some(
                (value, (f.len() - kl) as nat),
            )
            &&& (f + rest).skip(f.len() as int) == rest
        }),
{
    let key = key_bytes(tag, WIRE_VARINT);
    let v = varint_bytes(value as nat);
    let f = uint32_field_bytes(tag, value);
    assert(f + rest =~= key + (v + rest));
    lemma_key_roundtrip(tag, WIRE_VARINT, v + rest);
    assert((f + rest).skip(key.len() as int) =~= v + rest);
    lemma_decode_varint_bytes(value as u64, rest);
    assert((f + rest).skip(f.len() as int) =~= rest);
}

/// A character takes at most four bytes in UTF-8.
pub proof fn lemma_utf8_len_bound(text: Seq<char>)
    ensures
        encode_utf8(text).len() <= 4 * text.len(),
    decreases text.len(),
{
    if text.len() > 0 {
        lemma_utf8_len_bound(text.drop_first());
    }
}

} // verus!
