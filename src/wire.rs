//! The BER wire format, stated over the mathematical view of an element.
use vstd::prelude::*;

use crate::tag::{Class, PayloadView, TagView};

verus! {

/// The base-128 groups of `m`, most significant first, each with the
/// continuation bit set; empty for 0.
pub open spec fn continuation_octets(m: nat) -> Seq<u8>
    decreases m,
{
    if m == 0 {
        seq![]
    } else {
        continuation_octets(m / 128).push((128 + m % 128) as u8)
    }
}

/// The octets that follow `0b11111` for tag number `n`: base 128, most
/// significant group first, the continuation bit set on every octet but the last.
pub open spec fn tag_number_octets(n: nat) -> Seq<u8> {
    continuation_octets(n / 128).push((n % 128) as u8)
}

/// The first octet of the type: class bits, structure bit, and either the tag
/// number or `0b11111`.
pub open spec fn leading_type_octet(c: Class, constructed: bool) -> nat {
    let low = if c.tag_number() <= 30 { c.tag_number() } else { 31 };
    c.class_bits() * 64 + (if constructed { 32nat } else { 0nat }) + low
}

/// The type octets of an element of class `c`.
pub open spec fn type_octets(c: Class, constructed: bool) -> Seq<u8> {
    let first = seq![leading_type_octet(c, constructed) as u8];
    if c.tag_number() <= 30 {
        first
    } else {
        first + tag_number_octets(c.tag_number())
    }
}

/// The big-endian octets of `n` with no leading zero octet; empty for 0.
pub open spec fn be_octets(n: nat) -> Seq<u8>
    decreases n,
{
    if n == 0 {
        seq![]
    } else {
        be_octets(n / 256).push((n % 256) as u8)
    }
}

/// The big-endian value of `s`.
pub open spec fn be_value(s: Seq<u8>) -> nat
    decreases s.len(),
{
    if s.len() == 0 {
        0
    } else {
        (be_value(s.subrange(0, s.len() - 1)) * 256 + s[s.len() - 1]) as nat
    }
}

/// `256` to the power `n`.
pub open spec fn pow256(n: nat) -> nat
    decreases n,
{
    if n == 0 {
        1
    } else {
        256 * pow256((n - 1) as nat)
    }
}

/// The length octets for a payload of `len` bytes: one octet below 128, else
/// `0x80` plus the count of big-endian octets, then those octets.
pub open spec fn length_octets(len: nat) -> Seq<u8> {
    if len < 128 {
        seq![len as u8]
    } else {
        seq![(128 + be_octets(len).len()) as u8] + be_octets(len)
    }
}

/// The encoding of an element.
pub open spec fn encode_view(t: TagView) -> Seq<u8>
    decreases t,
{
    type_octets(t.class, t.payload is Constructed) + length_octets(t.length) + encode_body(t.payload)
}

/// The encoding of a payload: its bytes, or its elements one after the other.
pub open spec fn encode_body(p: PayloadView) -> Seq<u8>
    decreases p,
{
    match p {
        PayloadView::Primitive(b) => b,
        PayloadView::Constructed(ts) => encode_all(ts),
    }
}

/// The encodings of `ts`, in order, with nothing between them.
pub open spec fn encode_all(ts: Seq<TagView>) -> Seq<u8>
    decreases ts,
{
    if ts.len() == 0 {
        seq![]
    } else {
        encode_all(ts.subrange(0, ts.len() - 1)) + encode_view(ts[ts.len() - 1])
    }
}

} // verus!

verus! {

pub proof fn lemma_pow256_64()
    ensures
        pow256(8) == 0x1_0000_0000_0000_0000,
{
    reveal_with_fuel(pow256, 9);
}

/// A number below `256^k` has at most `k` big-endian octets.
pub proof fn lemma_be_octets_len(n: nat, k: nat)
    requires
        n < pow256(k),
    ensures
        be_octets(n).len() <= k,
    decreases n,
{
    if n > 0 {
        assert(k > 0);
        let k1 = (k - 1) as nat;
        assert(n / 256 < pow256(k1)) by (nonlinear_arith)
            requires
                n < 256 * pow256(k1),
        ;
        lemma_be_octets_len(n / 256, k1);
    }
}

/// A length below `2^64` has at most eight big-endian octets.
pub proof fn lemma_be_octets_len_u64(n: nat)
    requires
        n <= u64::MAX,
    ensures
        be_octets(n).len() <= 8,
{
    lemma_pow256_64();
    lemma_be_octets_len(n, 8);
}

} // verus!
