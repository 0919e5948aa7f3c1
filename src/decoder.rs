//! Parsing of elements from bytes, for input that may arrive in pieces.
use vstd::prelude::*;
use vstd::slice::slice_subrange;

use crate::error::ASN1Error;
use crate::tag::{class_of, Class, Payload, PayloadView, Structure, Tag, TagView, tag_view, tags_view};
use crate::wire::{be_value, pow256};

verus! {

/// How reading an item that starts at some position of a byte sequence ends:
/// with the position just after the item and the item, for want of more bytes,
/// or with an error.
pub enum Parse<T> {
    Done(int, T),
    Incomplete,
    Failed(ASN1Error),
}

/// The largest accumulated tag number that one more base-128 group cannot overflow.
pub open spec fn tag_number_limit() -> nat {
    0x200_0000_0000_0000
}

/// Reads the base-128 groups of an extended tag number from position `i`,
/// `acc` being the value of the groups read before.
pub open spec fn parse_tag_number(s: Seq<u8>, i: int, acc: nat) -> Parse<nat>
    decreases s.len() - i,
{
    if i < 0 || i >= s.len() {
        Parse::Incomplete
    } else if acc >= tag_number_limit() {
        Parse::Failed(ASN1Error::ExtendedTagTooLong)
    } else if s[i] < 128 {
        Parse::Done(i + 1, (acc * 128 + s[i]) as nat)
    } else {
        parse_tag_number(s, i + 1, (acc * 128 + (s[i] - 128)) as nat)
    }
}

/// Reads the type octets at position `i`: the class and whether the element
/// is constructed.
pub open spec fn parse_type(s: Seq<u8>, i: int) -> Parse<(Class, bool)> {
    if i < 0 || i >= s.len() {
        Parse::Incomplete
    } else {
        let b = s[i] as nat;
        let cls = b / 64;
        let constructed = (b / 32) % 2 == 1;
        let low = b % 32;
        if low < 31 {
            match class_of(cls, low) {
                Some(c) => Parse::Done(i + 1, (c, constructed)),
                None => Parse::Failed(ASN1Error::InvalidASN1),
            }
        } else if cls == 0 {
            Parse::Failed(ASN1Error::InvalidASN1)
        } else {
            match parse_tag_number(s, i + 1, 0) {
                Parse::Done(j, n) => match class_of(cls, n) {
                    Some(c) => Parse::Done(j, (c, constructed)),
                    None => Parse::Failed(ASN1Error::InvalidASN1),
                },
                Parse::Incomplete => Parse::Incomplete,
                Parse::Failed(e) => Parse::Failed(e),
            }
        }
    }
}

/// Reads the length octets at position `i`.
pub open spec fn parse_length(s: Seq<u8>, i: int) -> Parse<nat> {
    if i < 0 || i >= s.len() {
        Parse::Incomplete
    } else if s[i] == 0x80 {
        Parse::Failed(ASN1Error::IndefiniteLength)
    } else if s[i] < 0x80 {
        Parse::Done(i + 1, s[i] as nat)
    } else {
        let count = s[i] - 0x80;
        if count > 8 {
            Parse::Failed(ASN1Error::InvalidLengthEncoding)
        } else if i + 1 + count > s.len() {
            Parse::Incomplete
        } else {
            Parse::Done(i + 1 + count, be_value(s.subrange(i + 1, i + 1 + count)))
        }
    }
}

/// Reads the type and length octets at position `i`.
pub open spec fn parse_header(s: Seq<u8>, i: int) -> Parse<(Class, bool, nat)> {
    match parse_type(s, i) {
        Parse::Done(j, (c, constructed)) => match parse_length(s, j) {
            Parse::Done(k, len) => Parse::Done(k, (c, constructed, len)),
            Parse::Incomplete => Parse::Incomplete,
            Parse::Failed(e) => Parse::Failed(e),
        },
        Parse::Incomplete => Parse::Incomplete,
        Parse::Failed(e) => Parse::Failed(e),
    }
}

/// Reads the element at position `i`. The whole element must be there: its
/// elements are read within the payload's bounds, and one that overruns them
/// is an error.
pub open spec fn parse_element(s: Seq<u8>, i: int) -> Parse<TagView> {
    match parse_header(s, i) {
        Parse::Done(k, (c, constructed, len)) => if k + len > s.len() {
            Parse::Incomplete
        } else {
            match parse_content(s.subrange(k, k + len), constructed) {
                Ok(p) => Parse::Done(k + len, TagView { class: c, length: len, payload: p }),
                Err(e) => Parse::Failed(e),
            }
        },
        Parse::Incomplete => Parse::Incomplete,
        Parse::Failed(e) => Parse::Failed(e),
    }
}

/// Reads a payload that is all of `w`.
pub open spec fn parse_content(w: Seq<u8>, constructed: bool) -> Result<PayloadView, ASN1Error>
    decreases w.len(), 1nat,
{
    if !constructed {
        Ok(PayloadView::Primitive(w))
    } else {
        match parse_children(w, 0, seq![]) {
            Ok(ts) => Ok(PayloadView::Constructed(ts)),
            Err(e) => Err(e),
        }
    }
}

/// Reads the elements of `w` from position `p` to its end, after the
/// elements `acc` read before.
pub open spec fn parse_children(w: Seq<u8>, p: int, acc: Seq<TagView>) -> Result<
    Seq<TagView>,
    ASN1Error,
>
    decreases w.len() - p, 0nat,
{
    if p < 0 || p >= w.len() {
        Ok(acc)
    } else {
        match parse_header(w, p) {
            Parse::Done(k, (c, constructed, len)) => if k + len > w.len() {
                Err(ASN1Error::InvalidASN1)
            } else {
                proof {
                    lemma_header_advances(w, p);
                }
                match parse_content(w.subrange(k, k + len), constructed) {
                    Ok(pl) => parse_children(
                        w,
                        k + len,
                        acc.push(TagView { class: c, length: len, payload: pl }),
                    ),
                    Err(e) => Err(e),
                }
            },
            Parse::Incomplete => Err(ASN1Error::InvalidASN1),
            Parse::Failed(e) => Err(e),
        }
    }
}

proof fn lemma_tag_number_advances(s: Seq<u8>, i: int, acc: nat)
    ensures
        parse_tag_number(s, i, acc) matches Parse::Done(j, _) ==> j > i,
    decreases s.len() - i,
{
    if 0 <= i < s.len() && acc < tag_number_limit() && s[i] >= 128 {
        lemma_tag_number_advances(s, i + 1, (acc * 128 + (s[i] - 128)) as nat);
    }
}

/// The type takes at least one octet.
pub proof fn lemma_type_advances(s: Seq<u8>, i: int)
    ensures
        parse_type(s, i) matches Parse::Done(j, _) ==> j > i,
{
    lemma_tag_number_advances(s, i + 1, 0);
}

/// A header takes at least two octets.
pub proof fn lemma_header_advances(s: Seq<u8>, i: int)
    ensures
        parse_header(s, i) matches Parse::Done(k, _) ==> k >= i + 2,
{
    lemma_type_advances(s, i);
}

} // verus!

verus! {

/// The big-endian value of `s` is below `256^|s|`.
pub proof fn lemma_be_value_bound(s: Seq<u8>)
    ensures
        be_value(s) < pow256(s.len()),
    decreases s.len(),
{
    if s.len() > 0 {
        let init = s.subrange(0, s.len() - 1);
        lemma_be_value_bound(init);
        let v = be_value(init);
        let p = pow256(init.len());
        assert(v * 256 + s[s.len() - 1] < 256 * p) by (nonlinear_arith)
            requires
                v < p,
                s[s.len() - 1] < 256,
        ;
    }
}

/// Reads the base-128 groups of an extended tag number at position `i`.
pub fn read_extended_tags(s: &[u8], i: usize) -> (r: Result<Option<(usize, u64)>, ASN1Error>)
    ensures
        match r {
            Ok(Some((j, n))) => parse_tag_number(s@, i as int, 0) == Parse::Done(j as int, n as nat),
            Ok(None) => parse_tag_number(s@, i as int, 0) == Parse::<nat>::Incomplete,
            Err(e) => parse_tag_number(s@, i as int, 0) == Parse::<nat>::Failed(e),
        },
{
    let mut pos = i;
    let mut acc: u64 = 0;
    loop
        invariant
            i <= pos,
            parse_tag_number(s@, i as int, 0) == parse_tag_number(s@, pos as int, acc as nat),
        decreases s@.len() - pos,
    {
        if pos >= s.len() {
            return Ok(None);
        }
        if acc >= 0x200_0000_0000_0000 {
            return Err(ASN1Error::ExtendedTagTooLong);
        }
        let b = s[pos];
        if b < 128 {
            return Ok(Some((pos + 1, acc * 128 + b as u64)));
        }
        acc = acc * 128 + (b - 128) as u64;
        pos = pos + 1;
    }
}

/// Reads the type octets at position `i`.
pub fn read_type(s: &[u8], i: usize) -> (r: Result<Option<(usize, Class, Structure)>, ASN1Error>)
    ensures
        match r {
            Ok(Some((j, c, st))) => parse_type(s@, i as int) == Parse::Done(
                j as int,
                (c, st == Structure::Constructed),
            ),
            Ok(None) => parse_type(s@, i as int) == Parse::<(Class, bool)>::Incomplete,
            Err(e) => parse_type(s@, i as int) == Parse::<(Class, bool)>::Failed(e),
        },
{
    if i >= s.len() {
        return Ok(None);
    }
    let b = s[i];
    let structure = Structure::from_u8((b / 32) % 2);
    let cls = b / 64;
    let low = b % 32;
    if low < 31 {
        match Class::construct(cls, low as u64) {
            Ok(c) => Ok(Some((i + 1, c, structure))),
            Err(e) => Err(e),
        }
    } else if cls == 0 {
        Err(ASN1Error::InvalidASN1)
    } else {
        match read_extended_tags(s, i + 1) {
            Ok(Some((j, n))) => match Class::construct(cls, n) {
                Ok(c) => Ok(Some((j, c, structure))),
                Err(e) => Err(e),
            },
            Ok(None) => Ok(None),
            Err(e) => Err(e),
        }
    }
}

/// Reads the length octets at position `i`.
pub fn read_length(s: &[u8], i: usize) -> (r: Result<Option<(usize, u64)>, ASN1Error>)
    ensures
        match r {
            Ok(Some((j, len))) => parse_length(s@, i as int) == Parse::Done(j as int, len as nat),
            Ok(None) => parse_length(s@, i as int) == Parse::<nat>::Incomplete,
            Err(e) => parse_length(s@, i as int) == Parse::<nat>::Failed(e),
        },
{
    if i >= s.len() {
        return Ok(None);
    }
    let first = s[i];
    if first == 0x80 {
        return Err(ASN1Error::IndefiniteLength);
    }
    if first < 0x80 {
        return Ok(Some((i + 1, first as u64)));
    }
    let count = (first - 0x80) as usize;
    if count > 8 {
        return Err(ASN1Error::InvalidLengthEncoding);
    }
    if count > s.len() - i - 1 {
        return Ok(None);
    }
    let start = i + 1;
    let end = start + count;
    let mut pos = start;
    let mut acc: u64 = 0;
    while pos < end
        invariant
            start == i + 1,
            end == start + count,
            end <= s@.len(),
            count <= 8,
            start <= pos <= start + count,
            acc as nat == be_value(s@.subrange(start as int, pos as int)),
        decreases end - pos,
    {
        proof {
            let done = s@.subrange(start as int, pos as int);
            lemma_be_value_bound(done);
            assert(pow256(done.len()) <= pow256(7)) by {
                reveal_with_fuel(pow256, 8);
            }
            assert(pow256(7) == 0x100_0000_0000_0000) by {
                reveal_with_fuel(pow256, 8);
            }
            let next = s@.subrange(start as int, pos + 1);
            assert(next.subrange(0, next.len() - 1) =~= done);
        }
        acc = acc * 256 + s[pos] as u64;
        pos = pos + 1;
    }
    Ok(Some((pos, acc)))
}

} // verus!

verus! {

/// Reads the type and length octets at position `i`.
pub fn read_header(s: &[u8], i: usize) -> (r: Result<Option<(usize, Class, Structure, u64)>, ASN1Error>)
    ensures
        match r {
            Ok(Some((k, c, st, len))) => parse_header(s@, i as int) == Parse::Done(
                k as int,
                (c, st == Structure::Constructed, len as nat),
            ),
            Ok(None) => parse_header(s@, i as int) == Parse::<(Class, bool, nat)>::Incomplete,
            Err(e) => parse_header(s@, i as int) == Parse::<(Class, bool, nat)>::Failed(e),
        },
{
    match read_type(s, i) {
        Ok(Some((j, c, st))) => match read_length(s, j) {
            Ok(Some((k, len))) => Ok(Some((k, c, st, len))),
            Ok(None) => Ok(None),
            Err(e) => Err(e),
        },
        Ok(None) => Ok(None),
        Err(e) => Err(e),
    }
}

/// The view of a sequence of elements grows by the view of the element pushed.
pub proof fn lemma_tags_view_push(ts: Seq<Tag>, t: Tag)
    ensures
        tags_view(ts.push(t)) == tags_view(ts).push(tag_view(t)),
{
    let pushed = ts.push(t);
    assert(pushed.subrange(0, pushed.len() - 1) =~= ts);
}

/// Reads a payload that is all of `w`: its bytes, or the elements it holds.
pub fn read_value(w: &[u8], structure: Structure) -> (r: Result<Payload, ASN1Error>)
    ensures
        match r {
            Ok(p) => parse_content(w@, structure == Structure::Constructed) == Ok::<
                PayloadView,
                ASN1Error,
            >(p@),
            Err(e) => parse_content(w@, structure == Structure::Constructed) == Err::<
                PayloadView,
                ASN1Error,
            >(e),
        },
    decreases w@.len(),
{
    match structure {
        Structure::Primitive => {
            let bytes = vstd::slice::slice_to_vec(w);
            Ok(Payload::Primitive(bytes))
        },
        Structure::Constructed => {
            let mut tags: Vec<Tag> = Vec::new();
            let mut p: usize = 0;
            assert(tags_view(tags@) =~= Seq::<TagView>::empty());
            while p < w.len()
                invariant
                    structure == Structure::Constructed,
                    p <= w@.len(),
                    parse_children(w@, 0, seq![]) == parse_children(
                        w@,
                        p as int,
                        tags_view(tags@),
                    ),
                decreases w@.len() - p,
            {
                match read_header(w, p) {
                    Ok(Some((k, c, st, len))) => {
                        proof {
                            lemma_header_advances(w@, p as int);
                        }
                        if len > (w.len() - k) as u64 {
                            assert(parse_children(w@, p as int, tags_view(tags@)) == Err::<
                                Seq<TagView>,
                                ASN1Error,
                            >(ASN1Error::InvalidASN1));
                            return Err(ASN1Error::InvalidASN1);
                        }
                        let end = k + len as usize;
                        let sub = slice_subrange(w, k, end);
                        match read_value(sub, st) {
                            Ok(pl) => {
                                let tag = Tag { class: c, payload: pl, length: len };
                                proof {
                                    lemma_tags_view_push(tags@, tag);
                                }
                                tags.push(tag);
                                p = end;
                            },
                            Err(e) => {
                                assert(sub@ == w@.subrange(k as int, end as int));
                                assert(parse_children(w@, p as int, tags_view(tags@)) == Err::<
                                    Seq<TagView>,
                                    ASN1Error,
                                >(e));
                                return Err(e);
                            },
                        }
                    },
                    Ok(None) => {
                        assert(parse_children(w@, p as int, tags_view(tags@)) == Err::<
                            Seq<TagView>,
                            ASN1Error,
                        >(ASN1Error::InvalidASN1));

                        return Err(ASN1Error::InvalidASN1);
                    },
                    Err(e) => {
                        assert(parse_children(w@, p as int, tags_view(tags@)) == Err::<
                            Seq<TagView>,
                            ASN1Error,
                        >(e));
                        return Err(e);
                    },
                }
            }
            Ok(Payload::Constructed(tags))
        },
    }
}

/// Reads the element at the start of `buf`. `Ok(None)` asks for more bytes:
/// nothing is consumed, and a later call with more bytes starts over.
pub fn decode(buf: &[u8]) -> (r: Result<Option<(usize, Tag)>, ASN1Error>)
    ensures
        match r {
            Ok(Some((n, t))) => parse_element(buf@, 0) == Parse::Done(n as int, t@),
            Ok(None) => parse_element(buf@, 0) == Parse::<TagView>::Incomplete,
            Err(e) => parse_element(buf@, 0) == Parse::<TagView>::Failed(e),
        },
{
    match read_header(buf, 0) {
        Ok(Some((k, c, st, len))) => {
            if len > (buf.len() - k) as u64 {
                return Ok(None);
            }
            let end = k + len as usize;
            let sub = slice_subrange(buf, k, end);
            match read_value(sub, st) {
                Ok(pl) => Ok(Some((end, Tag { class: c, payload: pl, length: len }))),
                Err(e) => Err(e),
            }
        },
        Ok(None) => Ok(None),
        Err(e) => Err(e),
    }
}

} // verus!
