//! The messages that nodes exchange, and their protobuf encoding.
//!
//! Every message on the wire is a `Base`: a kind and the bytes of an inner
//! message (`Handshake`, `PeerInfo`, or nothing). A field that holds its
//! default value (empty text, empty bytes, zero) is not written; a reader
//! takes the last occurrence of a field and passes over fields it does not
//! know.
use vstd::prelude::*;
use vstd::utf8::*;
use crate::varint::{lemma_decode_varint_bytes, lemma_decode_varint_len, varint_bytes};
use crate::wire::{
    merge_bytes_field, merge_string_field, merge_uint32_field, put_bytes_field, put_string_field,
    put_uint32_field, skip_unknown_field, take_key,
    bytes_field_bytes, key_bytes, spec_skip_field, spec_bytes_field, spec_decode_key,
    spec_string_field, spec_uint32_field, string_field_bytes,
    uint32_field_bytes, MAX_TAG, WIRE_LEN, lemma_key_roundtrip, WIRE_VARINT, lemma_bytes_field_roundtrip,
    lemma_string_field_roundtrip, lemma_uint32_field_roundtrip,
};

verus! {

broadcast use {vstd::seq_lib::group_seq_properties, vstd::string::group_string_axioms};

/// The kind of a message that only asks the receiver to pause.
pub const KIND_TEST: &'static str = "TEST";

/// The kind of a message by which a node announces the port it listens on.
pub const KIND_HANDSHAKE: &'static str = "HANDSHAKE";

/// The kind of a ping, which a connected peer answers with a pong.
pub const KIND_PING: &'static str = "PING";

/// The kind of the answer to a ping.
pub const KIND_PONG: &'static str = "PONG";

/// The kind of a message that makes a peer known to the receiver.
pub const KIND_PEER_INFO: &'static str = "PEER_INFO";

/// The five kinds are different texts.
pub proof fn lemma_kinds_distinct()
    ensures
        KIND_TEST@ != KIND_HANDSHAKE@,
        KIND_TEST@ != KIND_PING@,
        KIND_TEST@ != KIND_PONG@,
        KIND_TEST@ != KIND_PEER_INFO@,
        KIND_HANDSHAKE@ != KIND_PING@,
        KIND_HANDSHAKE@ != KIND_PONG@,
        KIND_HANDSHAKE@ != KIND_PEER_INFO@,
        KIND_PING@ != KIND_PONG@,
        KIND_PING@ != KIND_PEER_INFO@,
        KIND_PONG@ != KIND_PEER_INFO@,
{
    reveal_strlit("TEST");
    reveal_strlit("HANDSHAKE");
    reveal_strlit("PEER_INFO");
    reveal_strlit("PING");
    reveal_strlit("PONG");
    assert(KIND_TEST@[0] == 'T');
    assert(KIND_HANDSHAKE@[0] == 'H');
    assert(KIND_PING@[1] == 'I');
    assert(KIND_PONG@[1] == 'O');
    assert(KIND_PEER_INFO@[1] == 'E');
    assert(KIND_PING@[0] == 'P' && KIND_PONG@[0] == 'P' && KIND_PEER_INFO@[0] == 'P');
}

/// A message that could not be decoded.
#[derive(Debug, Clone, Copy, PartialEq, Eq)]
pub struct WireError;

/// The envelope of every message: field 1 is the kind (a string), field 2
/// the encoded inner message (bytes).
#[derive(Debug, Clone, PartialEq, Eq, Default)]
pub struct Base {
    pub kind: String,
    pub data: Vec<u8>,
}

/// A node's listening port (field 1, `uint32`).
#[derive(Debug, Clone, Copy, PartialEq, Eq, Default)]
pub struct Handshake {
    pub port: u32,
}

/// A peer's address: its port (field 1, `uint32`) and its ip (field 2,
/// string).
#[derive(Debug, Clone, PartialEq, Eq, Default)]
pub struct PeerInfo {
    pub port: u32,
    pub ip: String,
}

/// What a `Base` holds.
pub struct BaseView {
    pub kind: Seq<char>,
    pub data: Seq<u8>,
}

/// What a `PeerInfo` holds.
pub struct PeerInfoView {
    pub port: u32,
    pub ip: Seq<char>,
}

impl View for Base {
    type V = BaseView;

    open spec fn view(&self) -> BaseView {
        BaseView { kind: self.kind@, data: self.data@ }
    }
}

impl View for Handshake {
    type V = Handshake;

    open spec fn view(&self) -> Handshake {
        *self
    }
}

impl View for PeerInfo {
    type V = PeerInfoView;

    open spec fn view(&self) -> PeerInfoView {
        PeerInfoView { port: self.port, ip: self.ip@ }
    }
}

// ----- encoding -----
/// The encoding of a `Base`: the kind unless it is empty, then the data
/// unless it is empty.
pub open spec fn spec_encode_base(m: BaseView) -> Seq<u8> {
    (if m.kind.len() > 0 {
        string_field_bytes(1, m.kind)
    } else {
        Seq::empty()
    }) + (if m.data.len() > 0 {
        bytes_field_bytes(2, m.data)
    } else {
        Seq::empty()
    })
}

/// The encoding of a `Handshake`: the port unless it is zero.
pub open spec fn spec_encode_handshake(m: Handshake) -> Seq<u8> {
    if m.port != 0 {
        uint32_field_bytes(1, m.port)
    } else {
        Seq::empty()
    }
}

/// The encoding of a `PeerInfo`: the port unless it is zero, then the ip
/// unless it is empty.
pub open spec fn spec_encode_peer_info(m: PeerInfoView) -> Seq<u8> {
    (if m.port != 0 {
        uint32_field_bytes(1, m.port)
    } else {
        Seq::empty()
    }) + (if m.ip.len() > 0 {
        string_field_bytes(2, m.ip)
    } else {
        Seq::empty()
    })
}

// ----- decoding -----
/// A key takes at least one byte and no more than there are; so does a
/// field payload.
pub proof fn lemma_field_lengths(s: Seq<u8>, wire: u8)
    ensures
        spec_decode_key(s) matches Some((t, w, n)) ==> 1 <= n <= s.len(),
        spec_string_field(wire, s) matches Some((v, n)) ==> n <= s.len(),
        spec_bytes_field(wire, s) matches Some((v, n)) ==> n <= s.len(),
        spec_uint32_field(wire, s) matches Some((v, n)) ==> n <= s.len(),
{
    lemma_decode_varint_len(s);
}

/// Reads the fields of a `Base` from `s` on top of `acc`.
pub open spec fn merge_base(acc: BaseView, s: Seq<u8>) -> Option<BaseView>
    decreases s.len(),
{
    if s.len() == 0 {
        Some(acc)
    } else {
        match spec_decode_key(s) {
            None => None,
            Some((tag, wire, n)) => {
                let rest = s.skip(n as int);
                proof {
                    lemma_field_lengths(s, wire);
                    lemma_field_lengths(rest, wire);
                }
                if tag == 1 {
                    match spec_string_field(wire, rest) {
                        Some((kind, k)) => merge_base(
                            BaseView { kind, data: acc.data },
                            rest.skip(k as int),
                        ),
                        None => None,
                    }
                } else if tag == 2 {
                    match spec_bytes_field(wire, rest) {
                        Some((data, k)) => merge_base(
                            BaseView { kind: acc.kind, data },
                            rest.skip(k as int),
                        ),
                        None => None,
                    }
                } else {
                    match spec_skip_field(wire, tag, rest) {
                        Some(k) => if k <= rest.len() {
                            merge_base(acc, rest.skip(k as int))
                        } else {
                            None
                        },
                        None => None,
                    }
                }
            },
        }
    }
}

/// The `Base` that `s` decodes to, if any.
pub open spec fn spec_decode_base(s: Seq<u8>) -> Option<BaseView> {
    merge_base(BaseView { kind: Seq::empty(), data: Seq::empty() }, s)
}

/// Reads the fields of a `Handshake` from `s` on top of `acc`.
pub open spec fn merge_handshake(acc: Handshake, s: Seq<u8>) -> Option<Handshake>
    decreases s.len(),
{
    if s.len() == 0 {
        Some(acc)
    } else {
        match spec_decode_key(s) {
            None => None,
            Some((tag, wire, n)) => {
                let rest = s.skip(n as int);
                proof {
                    lemma_field_lengths(s, wire);
                    lemma_field_lengths(rest, wire);
                }
                if tag == 1 {
                    match spec_uint32_field(wire, rest) {
                        Some((port, k)) => merge_handshake(Handshake { port }, rest.skip(k as int)),
                        None => None,
                    }
                } else {
                    match spec_skip_field(wire, tag, rest) {
                        Some(k) => if k <= rest.len() {
                            merge_handshake(acc, rest.skip(k as int))
                        } else {
                            None
                        },
                        None => None,
                    }
                }
            },
        }
    }
}

/// The `Handshake` that `s` decodes to, if any.
pub open spec fn spec_decode_handshake(s: Seq<u8>) -> Option<Handshake> {
    merge_handshake(Handshake { port: 0 }, s)
}

/// Reads the fields of a `PeerInfo` from `s` on top of `acc`.
pub open spec fn merge_peer_info(acc: PeerInfoView, s: Seq<u8>) -> Option<PeerInfoView>
    decreases s.len(),
{
    if s.len() == 0 {
        Some(acc)
    } else {
        match spec_decode_key(s) {
            None => None,
            Some((tag, wire, n)) => {
                let rest = s.skip(n as int);
                proof {
                    lemma_field_lengths(s, wire);
                    lemma_field_lengths(rest, wire);
                }
                if tag == 1 {
                    match spec_uint32_field(wire, rest) {
                        Some((port, k)) => merge_peer_info(
                            PeerInfoView { port, ip: acc.ip },
                            rest.skip(k as int),
                        ),
                        None => None,
                    }
                } else if tag == 2 {
                    match spec_string_field(wire, rest) {
                        Some((ip, k)) => merge_peer_info(
                            PeerInfoView { port: acc.port, ip },
                            rest.skip(k as int),
                        ),
                        None => None,
                    }
                } else {
                    match spec_skip_field(wire, tag, rest) {
                        Some(k) => if k <= rest.len() {
                            merge_peer_info(acc, rest.skip(k as int))
                        } else {
                            None
                        },
                        None => None,
                    }
                }
            },
        }
    }
}

/// The `PeerInfo` that `s` decodes to, if any.
pub open spec fn spec_decode_peer_info(s: Seq<u8>) -> Option<PeerInfoView> {
    merge_peer_info(PeerInfoView { port: 0, ip: Seq::empty() }, s)
}

// ----- the executable codec -----
/// A message with a protobuf encoding.
pub trait ProtoImpl: Sized + View {
    /// The encoding of a message.
    spec fn spec_to_bytes(m: Self::V) -> Seq<u8>;

    /// The message that `bytes` decode to, if any.
    spec fn spec_from_bytes(bytes: Seq<u8>) -> Option<Self::V>;

    /// The protobuf encoding of this message.
    fn to_bytes(&self) -> (r: Vec<u8>)
        ensures
            r@ == Self::spec_to_bytes(self@),
    ;

    /// Decodes a message; fails exactly where `spec_from_bytes` finds none.
    fn from_bytes(bytes: &[u8]) -> (r: Result<Self, WireError>)
        ensures
            match Self::spec_from_bytes(bytes@) {
                Some(m) => r matches Ok(v) && v@ == m,
                None => r is Err,
            },
    ;
}

impl ProtoImpl for Base {
    open spec fn spec_to_bytes(m: BaseView) -> Seq<u8> {
        spec_encode_base(m)
    }

    open spec fn spec_from_bytes(bytes: Seq<u8>) -> Option<BaseView> {
        spec_decode_base(bytes)
    }

    fn to_bytes(&self) -> (r: Vec<u8>) {
        let mut buf: Vec<u8> = Vec::new();
        if !self.kind.as_str().is_empty() {
            put_string_field(1, &self.kind, &mut buf);
        }
        if self.data.len() > 0 {
            put_bytes_field(2, &self.data, &mut buf);
        }
        buf
    }

    fn from_bytes(bytes: &[u8]) -> (r: Result<Base, WireError>) {
        let mut kind = String::new();
        let mut data: Vec<u8> = Vec::new();
        let mut rest = bytes;
        while rest.len() > 0
            invariant
                merge_base(BaseView { kind: kind@, data: data@ }, rest@) == spec_decode_base(
                    bytes@,
                ),
            decreases rest@.len(),
        {
            proof {
                lemma_field_lengths(rest@, 0);
            }
            let (tag, wire, after) = match take_key(rest) {
                Ok(key) => key,
                Err(_) => return Err(WireError),
            };
            proof {
                lemma_field_lengths(after@, wire);
            }
            if tag == 1 {
                match merge_string_field(wire, &mut kind, after) {
                    Ok(next) => rest = next,
                    Err(_) => return Err(WireError),
                }
            } else if tag == 2 {
                match merge_bytes_field(wire, &mut data, after) {
                    Ok(next) => rest = next,
                    Err(_) => return Err(WireError),
                }
            } else {
                match skip_unknown_field(wire, tag, after) {
                    Ok(next) => rest = next,
                    Err(_) => return Err(WireError),
                }
            }
        }
        Ok(Base { kind, data })
    }
}

impl ProtoImpl for Handshake {
    open spec fn spec_to_bytes(m: Handshake) -> Seq<u8> {
        spec_encode_handshake(m)
    }

    open spec fn spec_from_bytes(bytes: Seq<u8>) -> Option<Handshake> {
        spec_decode_handshake(bytes)
    }

    fn to_bytes(&self) -> (r: Vec<u8>) {
        let mut buf: Vec<u8> = Vec::new();
        if self.port != 0 {
            put_uint32_field(1, self.port, &mut buf);
        }
        buf
    }

    fn from_bytes(bytes: &[u8]) -> (r: Result<Handshake, WireError>) {
        let mut port: u32 = 0;
        let mut rest = bytes;
        while rest.len() > 0
            invariant
                merge_handshake(Handshake { port }, rest@) == spec_decode_handshake(bytes@),
            decreases rest@.len(),
        {
            proof {
                lemma_field_lengths(rest@, 0);
            }
            let (tag, wire, after) = match take_key(rest) {
                Ok(key) => key,
                Err(_) => return Err(WireError),
            };
            proof {
                lemma_field_lengths(after@, wire);
            }
            if tag == 1 {
                match merge_uint32_field(wire, &mut port, after) {
                    Ok(next) => rest = next,
                    Err(_) => return Err(WireError),
                }
            } else {
                match skip_unknown_field(wire, tag, after) {
                    Ok(next) => rest = next,
                    Err(_) => return Err(WireError),
                }
            }
        }
        Ok(Handshake { port })
    }
}

impl ProtoImpl for PeerInfo {
    open spec fn spec_to_bytes(m: PeerInfoView) -> Seq<u8> {
        spec_encode_peer_info(m)
    }

    open spec fn spec_from_bytes(bytes: Seq<u8>) -> Option<PeerInfoView> {
        spec_decode_peer_info(bytes)
    }

    fn to_bytes(&self) -> (r: Vec<u8>) {
        let mut buf: Vec<u8> = Vec::new();
        if self.port != 0 {
            put_uint32_field(1, self.port, &mut buf);
        }
        if !self.ip.as_str().is_empty() {
            put_string_field(2, &self.ip, &mut buf);
        }
        buf
    }

    fn from_bytes(bytes: &[u8]) -> (r: Result<PeerInfo, WireError>) {
        let mut port: u32 = 0;
        let mut ip = String::new();
        let mut rest = bytes;
        while rest.len() > 0
            invariant
                merge_peer_info(PeerInfoView { port, ip: ip@ }, rest@) == spec_decode_peer_info(
                    bytes@,
                ),
            decreases rest@.len(),
        {
            proof {
                lemma_field_lengths(rest@, 0);
            }
            let (tag, wire, after) = match take_key(rest) {
                Ok(key) => key,
                Err(_) => return Err(WireError),
            };
            proof {
                lemma_field_lengths(after@, wire);
            }
            if tag == 1 {
                match merge_uint32_field(wire, &mut port, after) {
                    Ok(next) => rest = next,
                    Err(_) => return Err(WireError),
                }
            } else if tag == 2 {
                match merge_string_field(wire, &mut ip, after) {
                    Ok(next) => rest = next,
                    Err(_) => return Err(WireError),
                }
            } else {
                match skip_unknown_field(wire, tag, after) {
                    Ok(next) => rest = next,
                    Err(_) => return Err(WireError),
                }
            }
        }
        Ok(PeerInfo { port, ip })
    }
}

// ----- laws -----
/// Reading a string field as field `tag` of a `Base`: what `merge_base` does
/// with one field written for `text` followed by `rest`.
proof fn lemma_merge_base_kind(acc: BaseView, text: Seq<char>, rest: Seq<u8>)
    requires
        encode_utf8(text).len() <= u64::MAX,
    ensures
        merge_base(acc, string_field_bytes(1, text) + rest) == merge_base(
            BaseView { kind: text, data: acc.data },
            rest,
        ),
{
    let f = string_field_bytes(1, text);
    let kl = key_bytes(1, WIRE_LEN).len();
    lemma_string_field_roundtrip(1, text, rest);
    let s = f + rest;
    assert(s.skip(kl as int).skip((f.len() - kl) as int) =~= s.skip(f.len() as int));
}

proof fn lemma_merge_base_data(acc: BaseView, data: Seq<u8>, rest: Seq<u8>)
    requires
        data.len() <= u64::MAX,
    ensures
        merge_base(acc, bytes_field_bytes(2, data) + rest) == merge_base(
            BaseView { kind: acc.kind, data },
            rest,
        ),
{
    let f = bytes_field_bytes(2, data);
    let kl = key_bytes(2, WIRE_LEN).len();
    lemma_bytes_field_roundtrip(2, data, rest);
    let s = f + rest;
    assert(s.skip(kl as int).skip((f.len() - kl) as int) =~= s.skip(f.len() as int));
}

/// `acc` with the fields of `m` that are not at their default.
pub open spec fn spec_overlay_base(acc: BaseView, m: BaseView) -> BaseView {
    BaseView {
        kind: if m.kind.len() > 0 {
            m.kind
        } else {
            acc.kind
        },
        data: if m.data.len() > 0 {
            m.data
        } else {
            acc.data
        },
    }
}

/// Reading the encoding of `m` on top of `acc` sets the fields that `m`
/// holds and leaves the others.
proof fn lemma_merge_base_encoded(acc: BaseView, m: BaseView, rest: Seq<u8>)
    requires
        encode_utf8(m.kind).len() <= u64::MAX,
        m.data.len() <= u64::MAX,
    ensures
        merge_base(acc, spec_encode_base(m) + rest) == merge_base(spec_overlay_base(acc, m), rest),
{
    let empty = Seq::<u8>::empty();
    let b = if m.data.len() > 0 {
        bytes_field_bytes(2, m.data)
    } else {
        empty
    };
    let a = if m.kind.len() > 0 {
        string_field_bytes(1, m.kind)
    } else {
        empty
    };
    let mid = BaseView {
        kind: if m.kind.len() > 0 {
            m.kind
        } else {
            acc.kind
        },
        data: acc.data,
    };
    assert(spec_encode_base(m) + rest =~= a + (b + rest));
    if m.kind.len() > 0 {
        lemma_merge_base_kind(acc, m.kind, b + rest);
    } else {
        assert(a + (b + rest) =~= b + rest);
    }
    if m.data.len() > 0 {
        lemma_merge_base_data(mid, m.data, rest);
    } else {
        assert(b + rest =~= rest);
    }
}

/// Decoding two encoded `Base` messages written one after the other gives
/// one message: each field as the second one holds it, unless it is at its
/// default there (the last occurrence of a field wins).
pub proof fn lemma_base_concat(m1: BaseView, m2: BaseView)
    requires
        encode_utf8(m1.kind).len() <= u64::MAX,
        m1.data.len() <= u64::MAX,
        encode_utf8(m2.kind).len() <= u64::MAX,
        m2.data.len() <= u64::MAX,
    ensures
        spec_decode_base(spec_encode_base(m1) + spec_encode_base(m2)) == Some(
            spec_overlay_base(m1, m2),
        ),
{
    let start = BaseView { kind: Seq::empty(), data: Seq::empty() };
    let empty = Seq::<u8>::empty();
    lemma_merge_base_encoded(start, m1, spec_encode_base(m2));
    let after1 = spec_overlay_base(start, m1);
    assert(after1.kind =~= m1.kind && after1.data =~= m1.data);
    assert(after1 == m1);
    lemma_merge_base_encoded(m1, m2, empty);
    assert(spec_encode_base(m2) + empty =~= spec_encode_base(m2));
}

/// A `Base` reader passes over a varint field of a tag it does not know:
/// reading it, then `rest`, is reading `rest`.
pub proof fn lemma_base_skips_unknown_varint(acc: BaseView, tag: u32, value: u64, rest: Seq<u8>)
    requires
        3 <= tag <= MAX_TAG,
    ensures
        merge_base(acc, key_bytes(tag, WIRE_VARINT) + varint_bytes(value as nat) + rest)
            == merge_base(acc, rest),
{
    let key = key_bytes(tag, WIRE_VARINT);
    let v = varint_bytes(value as nat);
    let s = key + v + rest;
    assert(s =~= key + (v + rest));
    lemma_key_roundtrip(tag, WIRE_VARINT, v + rest);
    lemma_decode_varint_bytes(value, rest);
    assert(s.skip(key.len() as int) =~= v + rest);
    assert((v + rest).skip(v.len() as int) =~= rest);
}

/// Decoding the encoding of a `Base` gives it back, whatever its kind and
/// data (as long as their byte lengths fit in 64 bits).
pub proof fn lemma_base_roundtrip(m: BaseView)
    requires
        encode_utf8(m.kind).len() <= u64::MAX,
        m.data.len() <= u64::MAX,
    ensures
        spec_decode_base(spec_encode_base(m)) == Some(m),
{
    let empty = Seq::<u8>::empty();
    let start = BaseView { kind: Seq::empty(), data: Seq::empty() };
    let b = if m.data.len() > 0 {
        bytes_field_bytes(2, m.data)
    } else {
        empty
    };
    let a = if m.kind.len() > 0 {
        string_field_bytes(1, m.kind)
    } else {
        empty
    };
    let after_a = BaseView { kind: m.kind, data: Seq::empty() };
    if m.kind.len() > 0 {
        lemma_merge_base_kind(start, m.kind, b);
    } else {
        assert(a + b =~= b);
        assert(m.kind =~= Seq::<char>::empty());
    }
    assert(merge_base(start, a + b) == merge_base(after_a, b));
    if m.data.len() > 0 {
        lemma_merge_base_data(after_a, m.data, empty);
        assert(b + empty =~= b);
    } else {
        assert(m.data =~= Seq::<u8>::empty());
    }
    assert(merge_base(after_a, b) == merge_base(m, empty));
}

/// Decoding the encoding of a `Handshake` gives it back.
pub proof fn lemma_handshake_roundtrip(m: Handshake)
    ensures
        spec_decode_handshake(spec_encode_handshake(m)) == Some(m),
{
    let empty = Seq::<u8>::empty();
    if m.port != 0 {
        let f = uint32_field_bytes(1, m.port);
        let kl = key_bytes(1, WIRE_VARINT).len();
        lemma_uint32_field_roundtrip(1, m.port, empty);
        assert(f + empty =~= f);
        assert(f.skip(kl as int).skip((f.len() - kl) as int) =~= empty);
        assert(merge_handshake(Handshake { port: 0 }, f) == merge_handshake(m, empty));
    }
}

proof fn lemma_merge_peer_info_port(acc: PeerInfoView, port: u32, rest: Seq<u8>)
    ensures
        merge_peer_info(acc, uint32_field_bytes(1, port) + rest) == merge_peer_info(
            PeerInfoView { port, ip: acc.ip },
            rest,
        ),
{
    let f = uint32_field_bytes(1, port);
    let kl = key_bytes(1, WIRE_VARINT).len();
    lemma_uint32_field_roundtrip(1, port, rest);
    let s = f + rest;
    assert(s.skip(kl as int).skip((f.len() - kl) as int) =~= s.skip(f.len() as int));
}

proof fn lemma_merge_peer_info_ip(acc: PeerInfoView, ip: Seq<char>, rest: Seq<u8>)
    requires
        encode_utf8(ip).len() <= u64::MAX,
    ensures
        merge_peer_info(acc, string_field_bytes(2, ip) + rest) == merge_peer_info(
            PeerInfoView { port: acc.port, ip },
            rest,
        ),
{
    let f = string_field_bytes(2, ip);
    let kl = key_bytes(2, WIRE_LEN).len();
    lemma_string_field_roundtrip(2, ip, rest);
    let s = f + rest;
    assert(s.skip(kl as int).skip((f.len() - kl) as int) =~= s.skip(f.len() as int));
}

/// Decoding the encoding of a `PeerInfo` gives it back, whatever its port
/// and ip (as long as the ip's byte length fits in 64 bits).
pub proof fn lemma_peer_info_roundtrip(m: PeerInfoView)
    requires
        encode_utf8(m.ip).len() <= u64::MAX,
    ensures
        spec_decode_peer_info(spec_encode_peer_info(m)) == Some(m),
{
    let empty = Seq::<u8>::empty();
    let start = PeerInfoView { port: 0, ip: Seq::empty() };
    let b = if m.ip.len() > 0 {
        string_field_bytes(2, m.ip)
    } else {
        empty
    };
    let a = if m.port != 0 {
        uint32_field_bytes(1, m.port)
    } else {
        empty
    };
    let after_a = PeerInfoView { port: m.port, ip: Seq::empty() };
    if m.port != 0 {
        lemma_merge_peer_info_port(start, m.port, b);
    } else {
        assert(a + b =~= b);
    }
    assert(merge_peer_info(start, a + b) == merge_peer_info(after_a, b));
    if m.ip.len() > 0 {
        lemma_merge_peer_info_ip(after_a, m.ip, empty);
        assert(b + empty =~= b);
    } else {
        assert(m.ip =~= Seq::<char>::empty());
    }
    assert(merge_peer_info(after_a, b) == merge_peer_info(m, empty));
}

} // verus!
