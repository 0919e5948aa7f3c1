//! Properties of the codec as a whole.
use vstd::prelude::*;

use crate::decoder::{
    lemma_type_advances, parse_children, parse_content, parse_element, parse_header, parse_length,
    parse_tag_number, parse_type, tag_number_limit, Parse,
};
use crate::error::ASN1Error;
use crate::tag::{class_of, universal_of, Class, PayloadView, TagView, UniversalTypes};
use crate::wire::{
    be_octets, be_value, continuation_octets, encode_all, encode_body, encode_view,
    leading_type_octet, lemma_be_octets_len_u64, length_octets, pow256, tag_number_octets,
    type_octets,
};

verus! {

proof fn lemma_universal_of_number(t: UniversalTypes)
    ensures
        universal_of(t.spec_number()) == Some(t),
{
}

proof fn lemma_class_of_class(c: Class)
    ensures
        class_of(c.class_bits(), c.tag_number()) == Some(c),
{
    match c {
        Class::Universal(t) => lemma_universal_of_number(t),
        _ => {},
    }
}

/// Where `s` holds `a + b` from position `i`, it holds `a` there and `b` after it.
proof fn lemma_split_at(s: Seq<u8>, i: int, a: Seq<u8>, b: Seq<u8>)
    requires
        0 <= i,
        i + a.len() + b.len() <= s.len(),
        s.subrange(i, i + a.len() + b.len()) == a + b,
    ensures
        s.subrange(i, i + a.len()) == a,
        s.subrange(i + a.len(), i + a.len() + b.len()) == b,
        a.len() > 0 ==> s[i] == a[0],
{
    let w = s.subrange(i, i + a.len() + b.len());
    assert forall|x: int| 0 <= x < a.len() implies s.subrange(i, i + a.len())[x] == a[x] by {
        assert(w[x] == (a + b)[x]);
    }
    assert(s.subrange(i, i + a.len()) =~= a);
    assert forall|x: int| 0 <= x < b.len() implies s.subrange(
        i + a.len(),
        i + a.len() + b.len(),
    )[x] == b[x] by {
        assert(w[a.len() + x] == (a + b)[a.len() + x]);
    }
    assert(s.subrange(i + a.len(), i + a.len() + b.len()) =~= b);
    if a.len() > 0 {
        assert(w[0] == (a + b)[0]);
    }
}

/// Reading the continuation groups of `m` accumulates `m`.
proof fn lemma_parse_continuation(s: Seq<u8>, i: int, m: nat)
    requires
        0 <= i,
        i + continuation_octets(m).len() <= s.len(),
        s.subrange(i, i + continuation_octets(m).len()) == continuation_octets(m),
        m <= u64::MAX,
    ensures
        parse_tag_number(s, i, 0) == parse_tag_number(s, i + continuation_octets(m).len(), m),
    decreases m,
{
    if m > 0 {
        let head = continuation_octets(m / 128);
        let byte = (128 + m % 128) as u8;
        assert(continuation_octets(m) == head.push(byte));
        let j = i + head.len();
        assert(continuation_octets(m) =~= head + seq![byte]);
        lemma_split_at(s, i, head, seq![byte]);
        lemma_split_at(s, j, seq![byte], seq![]);
        lemma_parse_continuation(s, i, m / 128);
        assert(m / 128 < tag_number_limit());
        assert((m / 128) * 128 + m % 128 == m);
    }
}

/// Reading the octets of an extended tag number gives the number back.
proof fn lemma_parse_tag_number(s: Seq<u8>, i: int, n: nat)
    requires
        0 <= i,
        i + tag_number_octets(n).len() <= s.len(),
        s.subrange(i, i + tag_number_octets(n).len()) == tag_number_octets(n),
        n <= u64::MAX,
    ensures
        parse_tag_number(s, i, 0) == Parse::Done(i + tag_number_octets(n).len(), n),
{
    let head = continuation_octets(n / 128);
    let j = i + head.len();
    let last = seq![(n % 128) as u8];
    assert(tag_number_octets(n) =~= head + last);
    lemma_split_at(s, i, head, last);
    lemma_split_at(s, j, last, seq![]);
    lemma_parse_continuation(s, i, n / 128);
    assert((n / 128) * 128 + n % 128 == n);
}

/// Reading the type octets of class `c` gives `c` back.
proof fn lemma_parse_type(s: Seq<u8>, i: int, c: Class, constructed: bool)
    requires
        0 <= i,
        i + type_octets(c, constructed).len() <= s.len(),
        s.subrange(i, i + type_octets(c, constructed).len()) == type_octets(c, constructed),
    ensures
        parse_type(s, i) == Parse::Done(i + type_octets(c, constructed).len(), (c, constructed)),
{
    let ty = type_octets(c, constructed);
    let b = leading_type_octet(c, constructed);
    let first = seq![b as u8];
    let low = if c.tag_number() <= 30 { c.tag_number() } else { 31 };
    assert(c.class_bits() <= 3);
    assert(b / 64 == c.class_bits());
    assert((b / 32) % 2 == 1 <==> constructed);
    assert(b % 32 == low);
    lemma_class_of_class(c);
    if c.tag_number() > 30 {
        let n = c.tag_number();
        lemma_split_at(s, i, first, tag_number_octets(n));
        lemma_parse_tag_number(s, i + 1, n);
    } else {
        lemma_split_at(s, i, first, seq![]);
    }
}

/// The big-endian value of a number's octets is the number.
pub proof fn lemma_be_value_octets(n: nat)
    ensures
        be_value(be_octets(n)) == n,
    decreases n,
{
    if n > 0 {
        lemma_be_value_octets(n / 256);
        let o = be_octets(n);
        assert(o.subrange(0, o.len() - 1) =~= be_octets(n / 256));
    }
}

/// Reading the length octets of `len` gives `len` back.
proof fn lemma_parse_length(s: Seq<u8>, i: int, len: nat)
    requires
        0 <= i,
        i + length_octets(len).len() <= s.len(),
        s.subrange(i, i + length_octets(len).len()) == length_octets(len),
        len <= u64::MAX,
    ensures
        parse_length(s, i) == Parse::Done(i + length_octets(len).len(), len),
{
    let lo = length_octets(len);
    if len >= 128 {
        lemma_be_octets_len_u64(len);
        let digits = be_octets(len);
        assert(digits.len() >= 1);
        lemma_split_at(s, i, seq![lo[0]], digits);
        lemma_be_value_octets(len);
    } else {
        lemma_split_at(s, i, lo, seq![]);
    }
}

/// Reading the header of an element gives its class, structure and length back.
proof fn lemma_parse_header(s: Seq<u8>, i: int, c: Class, constructed: bool, len: nat)
    requires
        0 <= i,
        len <= u64::MAX,
        i + type_octets(c, constructed).len() + length_octets(len).len() <= s.len(),
        s.subrange(i, i + type_octets(c, constructed).len() + length_octets(len).len())
            == type_octets(c, constructed) + length_octets(len),
    ensures
        parse_header(s, i) == Parse::Done(
            i + type_octets(c, constructed).len() + length_octets(len).len(),
            (c, constructed, len),
        ),
{
    let ty = type_octets(c, constructed);
    let lo = length_octets(len);
    lemma_split_at(s, i, ty, lo);
    lemma_parse_type(s, i, c, constructed);
    lemma_parse_length(s, i + ty.len(), len);
}

/// The encoding of a sequence of elements is that of the first, then that of the rest.
pub proof fn lemma_encode_all_front(ts: Seq<TagView>)
    requires
        ts.len() > 0,
    ensures
        encode_all(ts) == encode_view(ts[0]) + encode_all(ts.subrange(1, ts.len() as int)),
    decreases ts.len(),
{
    if ts.len() == 1 {
        assert(ts.subrange(0, 0) =~= Seq::<TagView>::empty());
        assert(ts.subrange(1, 1) =~= Seq::<TagView>::empty());
        assert(encode_all(ts.subrange(0, 0)) =~= Seq::<u8>::empty());
        assert(encode_all(ts) =~= encode_view(ts[0]));
        assert(encode_all(ts.subrange(1, 1)) =~= Seq::<u8>::empty());
    } else {
        let init = ts.subrange(0, ts.len() - 1);
        lemma_encode_all_front(init);
        assert(init.subrange(1, init.len() as int) =~= ts.subrange(1, ts.len() as int).subrange(
            0,
            ts.len() - 2,
        ));
        assert(ts.subrange(1, ts.len() as int)[ts.len() - 2] == ts[ts.len() - 1]);
        assert(encode_all(ts.subrange(1, ts.len() as int)) == encode_all(
            ts.subrange(1, ts.len() as int).subrange(0, ts.len() - 2),
        ) + encode_view(ts[ts.len() - 1]));
        assert(encode_all(ts) =~= encode_view(ts[0]) + encode_all(ts.subrange(1, ts.len() as int)));
    }
}

/// Reading the encoding of a well-formed payload gives the payload back.
proof fn lemma_parse_content(p: PayloadView)
    requires
        p.wf(),
    ensures
        parse_content(encode_body(p), p is Constructed) == Ok::<PayloadView, ASN1Error>(p),
    decreases p, 1nat,
{
    match p {
        PayloadView::Primitive(_) => {},
        PayloadView::Constructed(ts) => {
            let w = encode_body(p);
            assert(w.subrange(0, w.len() as int) =~= encode_all(ts));
            assert forall|k: int| 0 <= k < ts.len() implies #[trigger] ts[k].wf() by {
                assert(p.wf());
            }
            lemma_parse_children(w, 0, seq![], ts);
            assert(Seq::<TagView>::empty() + ts =~= ts);
        },
    }
}

/// Reading the encodings of well-formed elements that fill `w` from `p`
/// appends the elements to `acc`.
proof fn lemma_parse_children(w: Seq<u8>, p: int, acc: Seq<TagView>, ts: Seq<TagView>)
    requires
        0 <= p <= w.len(),
        w.subrange(p, w.len() as int) == encode_all(ts),
        forall|k: int| 0 <= k < ts.len() ==> #[trigger] ts[k].wf(),
    ensures
        parse_children(w, p, acc) == Ok::<Seq<TagView>, ASN1Error>(acc + ts),
    decreases ts, 0nat,
{
    if ts.len() == 0 {
        assert(acc + ts =~= acc);
    } else {
        let t = ts[0];
        let rest = ts.subrange(1, ts.len() as int);
        lemma_encode_all_front(ts);
        assert(t.wf());
        let ty = type_octets(t.class, t.payload is Constructed);
        let lo = length_octets(t.length);
        let body = encode_body(t.payload);
        let enc = encode_view(t);
        assert(enc == ty + lo + body);
        let k = p + ty.len() + lo.len();
        let end = k + t.length;
        assert(encode_all(ts) == enc + encode_all(rest));
        assert(w.subrange(p, w.len() as int).len() == w.len() - p);
        assert(w.len() - p == enc.len() + encode_all(rest).len());
        lemma_split_at(w, p, enc, encode_all(rest));
        assert(enc =~= (ty + lo) + body);
        lemma_split_at(w, p, ty + lo, body);
        lemma_parse_header(w, p, t.class, t.payload is Constructed, t.length);
        assert(decreases_to!(ts => ts[0]));
        assert(decreases_to!(t => t.payload));
        lemma_parse_content(t.payload);
        assert forall|j: int| 0 <= j < rest.len() implies #[trigger] rest[j].wf() by {
            assert(rest[j] == ts[j + 1]);
        }
        lemma_parse_children(w, end, acc.push(t), rest);
        assert(acc.push(t) + rest =~= acc + ts);
    }
}

/// Decoding the encoding of a well-formed element gives the element back and
/// consumes exactly its encoding, whatever bytes follow it.
pub proof fn lemma_round_trip(t: TagView, rest: Seq<u8>)
    requires
        t.wf(),
    ensures
        parse_element(encode_view(t) + rest, 0) == Parse::Done(encode_view(t).len() as int, t),
{
    let s = encode_view(t) + rest;
    let ty = type_octets(t.class, t.payload is Constructed);
    let lo = length_octets(t.length);
    let body = encode_body(t.payload);
    let enc = encode_view(t);
    assert(s.subrange(0, enc.len() as int) =~= (ty + lo) + body);
    lemma_split_at(s, 0, ty + lo, body);
    lemma_parse_header(s, 0, t.class, t.payload is Constructed, t.length);
    lemma_parse_content(t.payload);
}

/// The big-endian octets of a positive number start with a nonzero octet,
/// and are as many as the number needs.
proof fn lemma_be_octets_minimal(n: nat)
    requires
        n > 0,
    ensures
        be_octets(n).len() >= 1,
        be_octets(n)[0] != 0,
        pow256((be_octets(n).len() - 1) as nat) <= n < pow256(be_octets(n).len()),
    decreases n,
{
    let k = be_octets(n).len();
    if n < 256 {
        assert(be_octets(n / 256) == Seq::<u8>::empty());
        assert(be_octets(n) =~= seq![(n % 256) as u8]);
        assert(pow256(1) == 256) by {
            reveal_with_fuel(pow256, 2);
        }
    } else {
        let q = n / 256;
        lemma_be_octets_minimal(q);
        let kq = be_octets(q).len();
        assert(be_octets(n)[0] == be_octets(q)[0]);
        assert(k == kq + 1);
        let lo = pow256((kq - 1) as nat);
        let hi = pow256(kq);
        assert(pow256(k) == 256 * hi);
        assert(pow256((k - 1) as nat) == hi);
        let r = n % 256;
        assert(n == 256 * q + r && 0 <= r < 256);
        assert(hi <= n < 256 * hi) by (nonlinear_arith)
            requires
                lo <= q < hi,
                n == 256 * q + r,
                0 <= r < 256,
                hi == 256 * lo,
        ;
    }
}

/// Lengths below 128 take the one-octet short form. Longer ones take the
/// long form: `0x80` plus a count, then that many big-endian octets that hold
/// the length, as few as can, the first of them not zero.
pub proof fn lemma_minimal_length_form(len: nat)
    requires
        len <= u64::MAX,
    ensures
        len < 128 ==> length_octets(len) == seq![len as u8],
        len >= 128 ==> {
            let o = length_octets(len);
            let c = (o.len() - 1) as nat;
            &&& 1 <= c <= 8
            &&& o[0] == 0x80 + c
            &&& be_value(o.subrange(1, o.len() as int)) == len
            &&& o[1] != 0
            &&& pow256((c - 1) as nat) <= len < pow256(c)
        },
{
    if len >= 128 {
        let o = length_octets(len);
        lemma_be_octets_len_u64(len);
        lemma_be_octets_minimal(len);
        lemma_be_value_octets(len);
        assert(o.subrange(1, o.len() as int) =~= be_octets(len));
    }
}

/// Whenever the length octet of an element is `0x80`, decoding fails with
/// `IndefiniteLength` and gives no element.
pub proof fn lemma_indefinite_length_rejected(s: Seq<u8>)
    requires
        length_octet_indefinite(s, 0),
    ensures
        parse_element(s, 0) == Parse::<TagView>::Failed(ASN1Error::IndefiniteLength),
{
    lemma_type_advances(s, 0);
}

/// Tag numbers up to 30 take a single type octet. Larger ones take the
/// extended form, `0b11111` and then base-128 groups, and read back unchanged.
pub proof fn lemma_extended_tag_fidelity(c: Class, constructed: bool, rest: Seq<u8>)
    ensures
        c.tag_number() <= 30 ==> type_octets(c, constructed).len() == 1,
        c.tag_number() > 30 ==> {
            &&& type_octets(c, constructed).len() >= 2
            &&& type_octets(c, constructed)[0] % 32 == 31
            &&& type_octets(c, constructed).subrange(1, type_octets(c, constructed).len() as int)
                == tag_number_octets(c.tag_number())
        },
        parse_type(type_octets(c, constructed) + rest, 0) == Parse::Done(
            type_octets(c, constructed).len() as int,
            (c, constructed),
        ),
{
    let ty = type_octets(c, constructed);
    let s = ty + rest;
    assert(s.subrange(0, ty.len() as int) =~= ty);
    lemma_parse_type(s, 0, c, constructed);
    if c.tag_number() > 30 {
        assert(ty.subrange(1, ty.len() as int) =~= tag_number_octets(c.tag_number()));
    }
}

/// The element at position `p` of `w` has the type octets of an element
/// followed by the length octet `0x80`.
pub open spec fn length_octet_indefinite(w: Seq<u8>, p: int) -> bool {
    parse_type(w, p) matches Parse::Done(j, _) && j < w.len() && w[j] == 0x80
}

/// Within a payload, a child whose length octet is `0x80` makes reading the
/// payload fail with `IndefiniteLength`.
pub proof fn lemma_indefinite_child_rejected(w: Seq<u8>, p: int, acc: Seq<TagView>)
    requires
        0 <= p < w.len(),
        length_octet_indefinite(w, p),
    ensures
        parse_children(w, p, acc) == Err::<Seq<TagView>, ASN1Error>(ASN1Error::IndefiniteLength),
{
    lemma_type_advances(w, p);
}

/// Within a payload, a child that reads completely hands reading on to what
/// follows it; one whose own payload fails makes the whole payload fail with
/// the same error.
pub proof fn lemma_children_step(w: Seq<u8>, p: int, acc: Seq<TagView>)
    requires
        0 <= p < w.len(),
        parse_header(w, p) matches Parse::Done(k, (_, _, len)) && k + len <= w.len(),
    ensures
        parse_header(w, p) matches Parse::Done(k, (c, constructed, len)) && match parse_content(
            w.subrange(k, k + len),
            constructed,
        ) {
            Ok(pl) => parse_children(w, p, acc) == parse_children(
                w,
                k + len,
                acc.push(TagView { class: c, length: len, payload: pl }),
            ),
            Err(e) => parse_children(w, p, acc) == Err::<Seq<TagView>, ASN1Error>(e),
        },
{
}

/// An element whose payload fails to read fails with the same error, so an
/// error deep inside, such as an indefinite length, reaches the caller and no
/// element comes out.
pub proof fn lemma_payload_error_rejected(s: Seq<u8>, i: int)
    requires
        parse_header(s, i) matches Parse::Done(k, (_, constructed, len)) && k + len <= s.len()
            && parse_content(s.subrange(k, k + len), constructed) is Err,
    ensures
        parse_header(s, i) matches Parse::Done(k, (_, constructed, len)) && parse_content(
            s.subrange(k, k + len),
            constructed,
        ) matches Err(e) && parse_element(s, i) == Parse::<TagView>::Failed(e),
{
}

/// A constructed element whose first child has the length octet `0x80`
/// fails to decode with `IndefiniteLength`.
pub proof fn lemma_indefinite_first_child_rejected(s: Seq<u8>)
    requires
        parse_header(s, 0) matches Parse::Done(k, (_, constructed, len)) && constructed && k + len
            <= s.len() && len > 0 && length_octet_indefinite(s.subrange(k, k + len), 0),
    ensures
        parse_element(s, 0) == Parse::<TagView>::Failed(ASN1Error::IndefiniteLength),
{
    if let Parse::Done(k, (_, _, len)) = parse_header(s, 0) {
        lemma_indefinite_child_rejected(s.subrange(k, k + len), 0, seq![]);
    }
}

} // verus!
