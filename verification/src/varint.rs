//! The base-128 variable-length integers of the protobuf wire format.
//!
//! A value is written seven bits at a time, least significant group first;
//! every byte but the last has its high bit set. A reader takes at most ten
//! bytes and refuses a value that does not fit in 64 bits.
use vstd::prelude::*;

verus! {

/// The bytes that encode `v`.
pub open spec fn varint_bytes(v: nat) -> Seq<u8>
    decreases v,
{
    if v < 128 {
        seq![v as u8]
    } else {
        seq![(v % 128 + 128) as u8] + varint_bytes(v / 128)
    }
}

/// Reads a varint of at most `max` bytes from the front of `s`: the value
/// (unbounded) and the number of bytes it took.
pub open spec fn varint_prefix(s: Seq<u8>, max: nat) -> Option<(nat, nat)>
    decreases max,
{
    if max == 0 || s.len() == 0 {
        None
    } else if s[0] < 128 {
        Some((s[0] as nat, 1nat))
    } else {
        match varint_prefix(s.drop_first(), (max - 1) as nat) {
            Some((v, n)) => Some((((s[0] - 128) + 128 * v) as nat, n + 1)),
            None => None,
        }
    }
}

/// What a protobuf reader takes from the front of `s` as a varint: a value
/// that fits in 64 bits, written in at most ten bytes, and its length.
pub open spec fn spec_decode_varint(s: Seq<u8>) -> Option<(u64, nat)> {
    match varint_prefix(s, 10) {
        Some((v, n)) => if v <= u64::MAX {
            Some((v as u64, n))
        } else {
            None
        },
        None => None,
    }
}

/// A successful read takes at least one byte and no more than there are.
pub proof fn lemma_varint_prefix_len(s: Seq<u8>, max: nat)
    ensures
        varint_prefix(s, max) matches Some((v, n)) ==> 1 <= n <= s.len() && n <= max,
    decreases max,
{
    if max > 0 && s.len() > 0 && s[0] >= 128 {
        lemma_varint_prefix_len(s.drop_first(), (max - 1) as nat);
    }
}

/// A successful read takes at least one byte and no more than there are.
pub proof fn lemma_decode_varint_len(s: Seq<u8>)
    ensures
        spec_decode_varint(s) matches Some((v, n)) ==> 1 <= n <= s.len() && n <= 10,
{
    lemma_varint_prefix_len(s, 10);
}

/// `128` to the power `k`.
pub open spec fn pow128(k: nat) -> nat
    decreases k,
{
    if k == 0 {
        1
    } else {
        128 * pow128((k - 1) as nat)
    }
}

/// The encoding of `v` takes `k` bytes or fewer when `v < 128^k`.
pub proof fn lemma_varint_bytes_len(v: nat, k: nat)
    requires
        k >= 1,
        v < pow128(k),
    ensures
        1 <= varint_bytes(v).len() <= k,
    decreases k,
{
    if v >= 128 {
        if k == 1 {
            assert(pow128(0) == 1);
        } else {
            let b2 = pow128((k - 1) as nat);
            assert(v / 128 < b2) by (nonlinear_arith)
                requires
                    v < 128 * b2,
            ;
            lemma_varint_bytes_len(v / 128, (k - 1) as nat);
        }
    }
}

/// Every value that fits in 64 bits is encoded in at most ten bytes.
pub proof fn lemma_varint_bytes_len_u64(v: u64)
    ensures
        1 <= varint_bytes(v as nat).len() <= 10,
{
    assert(pow128(10) == 0x40_0000_0000_0000_0000nat) by {
        reveal_with_fuel(pow128, 11);
    }
    lemma_varint_bytes_len(v as nat, 10);
}

/// Reading the encoding of `v`, with anything after it, gives back `v` and
/// the length of its encoding.
pub proof fn lemma_varint_prefix_of_bytes(v: nat, rest: Seq<u8>, max: nat)
    requires
        varint_bytes(v).len() <= max,
    ensures
        varint_prefix(varint_bytes(v) + rest, max) == Some((v, varint_bytes(v).len())),
    decreases v,
{
    let s = varint_bytes(v) + rest;
    if v < 128 {
        assert(s[0] == v as u8);
    } else {
        let tail = varint_bytes(v / 128);
        assert(s[0] == (v % 128 + 128) as u8);
        assert(s.drop_first() =~= tail + rest);
        lemma_varint_prefix_of_bytes(v / 128, rest, (max - 1) as nat);
    }
}

/// The protobuf reader takes back exactly what the encoding of `v` wrote.
pub proof fn lemma_decode_varint_bytes(v: u64, rest: Seq<u8>)
    ensures
        spec_decode_varint(varint_bytes(v as nat) + rest) == Some((v, varint_bytes(v as nat).len())),
{
    lemma_varint_bytes_len_u64(v);
    lemma_varint_prefix_of_bytes(v as nat, rest, 10);
}

} // verus!
