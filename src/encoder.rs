//! Serialisation of elements into bytes.
use vstd::prelude::*;

use crate::tag::{
    lemma_tags_view, tag_view, tags_view, Class, Payload, PayloadView, Structure, Tag,
};
use crate::wire::{
    be_octets, continuation_octets, encode_all, encode_body, encode_view, lemma_be_octets_len_u64,
    length_octets, tag_number_octets, type_octets,
};

verus! {

/// Appends the octets of an extended tag number.
fn write_tag_number(n: u64, out: &mut Vec<u8>)
    ensures
        final(out)@ == old(out)@ + tag_number_octets(n as nat),
{
    let base = out.len();
    out.push((n % 128) as u8);
    let mut m = n / 128;
    while m > 0
        invariant
            base == old(out)@.len(),
            base < out@.len(),
            out@.subrange(0, base as int) == old(out)@,
            continuation_octets(m as nat) + out@.subrange(base as int, out@.len() as int)
                == tag_number_octets(n as nat),
        decreases m,
    {
        let ghost suffix = out@.subrange(base as int, out@.len() as int);
        let byte = (128 + m % 128) as u8;
        out.insert(base, byte);
        assert(out@.subrange(0, base as int) =~= old(out)@);
        assert(out@.subrange(base as int, out@.len() as int) =~= seq![byte] + suffix);
        assert(continuation_octets(m as nat) == continuation_octets((m / 128) as nat).push(byte));
        assert(continuation_octets((m / 128) as nat) + (seq![byte] + suffix)
            =~= continuation_octets((m / 128) as nat).push(byte) + suffix);
        m = m / 128;
    }
    assert(out@ =~= old(out)@ + out@.subrange(base as int, out@.len() as int));
    assert(continuation_octets(0) + out@.subrange(base as int, out@.len() as int)
        =~= out@.subrange(base as int, out@.len() as int));
}

/// Appends the type octets of an element of class `class`.
pub fn write_type(class: &Class, structure: Structure, out: &mut Vec<u8>)
    ensures
        final(out)@ == old(out)@ + type_octets(*class, structure == Structure::Constructed),
{
    let number = class.number();
    let bits = class.class_number().bits();
    let pc: u8 = match structure {
        Structure::Primitive => 0,
        Structure::Constructed => 32,
    };
    let lead: u8 = bits * 64 + pc;
    if number <= 30 {
        out.push(lead + number as u8);
    } else {
        out.push(lead + 31);
        write_tag_number(number, out);
        assert(out@ =~= old(out)@ + type_octets(*class, structure == Structure::Constructed));
    }
}

/// Appends the length octets for a payload of `length` bytes: the short form
/// below 128, else the long form with as few octets as hold the length.
pub fn write_length(length: u64, out: &mut Vec<u8>)
    ensures
        final(out)@ == old(out)@ + length_octets(length as nat),
{
    if length < 128 {
        out.push(length as u8);
    } else {
        proof {
            lemma_be_octets_len_u64(length as nat);
        }
        let base = out.len();
        let mut n = length;
        let mut count: u8 = 0;
        while n > 0
            invariant
                base == old(out)@.len(),
                base <= out@.len(),
                out@.subrange(0, base as int) == old(out)@,
                count as int == out@.len() - base,
                be_octets(n as nat) + out@.subrange(base as int, out@.len() as int)
                    == be_octets(length as nat),
                be_octets(length as nat).len() <= 8,
            decreases n,
        {
            let ghost suffix = out@.subrange(base as int, out@.len() as int);
            let byte = (n % 256) as u8;
            out.insert(base, byte);
            assert(out@.subrange(0, base as int) =~= old(out)@);
            assert(out@.subrange(base as int, out@.len() as int) =~= seq![byte] + suffix);
            assert(be_octets(n as nat) == be_octets((n / 256) as nat).push(byte));
            assert(be_octets((n / 256) as nat) + (seq![byte] + suffix)
                =~= be_octets((n / 256) as nat).push(byte) + suffix);
            n = n / 256;
            count = count + 1;
        }
        let ghost digits = out@.subrange(base as int, out@.len() as int);
        assert(digits =~= be_octets(length as nat));
        out.insert(base, 128 + count);
        assert(out@ =~= old(out)@ + length_octets(length as nat));
    }
}

/// Appends the encoding of a payload.
pub fn write_value(payload: &Payload, out: &mut Vec<u8>)
    requires
        payload@.wf(),
    ensures
        final(out)@ == old(out)@ + encode_body(payload@),
    decreases payload,
{
    match payload {
        Payload::Primitive(bytes) => {
            let mut k: usize = 0;
            while k < bytes.len()
                invariant
                    k <= bytes@.len(),
                    out@ == old(out)@ + bytes@.subrange(0, k as int),
                decreases bytes@.len() - k,
            {
                out.push(bytes[k]);
                assert(bytes@.subrange(0, k + 1) =~= bytes@.subrange(0, k as int).push(bytes@[k as int]));
                k = k + 1;
            }
            assert(bytes@.subrange(0, k as int) =~= bytes@);
        },
        Payload::Constructed(tags) => {
            let ghost views = tags_view(tags@);
            proof {
                lemma_tags_view(tags@);
                assert(payload@ == PayloadView::Constructed(views));
            }
            let mut k: usize = 0;
            while k < tags.len()
                invariant
                    k <= tags@.len(),
                    *payload == Payload::Constructed(*tags),
                    views == tags_view(tags@),
                    views.len() == tags@.len(),
                    forall|i: int| 0 <= i < tags@.len() ==> #[trigger] views[i] == tag_view(tags@[i]),
                    payload@ == PayloadView::Constructed(views),
                    payload@.wf(),
                    out@ == old(out)@ + encode_all(views.subrange(0, k as int)),
                decreases tags@.len() - k,
            {
                proof {
                    assert(decreases_to!(*payload => (*payload)->Constructed_0));
                    assert(decreases_to!(*tags => tags[k as int]));
                    let p = payload@;
                    assert(p matches PayloadView::Constructed(q) && q == views);
                    assert(views[k as int].wf());
                }
                write(&tags[k], out);
                assert(views.subrange(0, k + 1).subrange(0, k as int) =~= views.subrange(0, k as int));
                assert(encode_all(views.subrange(0, k + 1))
                    == encode_all(views.subrange(0, k as int)) + encode_view(views[k as int]));
                assert(out@ =~= old(out)@ + encode_all(views.subrange(0, k + 1)));
                k = k + 1;
            }
            assert(views.subrange(0, k as int) =~= views);
        },
    }
}

/// Appends the encoding of an element.
pub fn write(tag: &Tag, out: &mut Vec<u8>)
    requires
        tag.wf(),
    ensures
        final(out)@ == old(out)@ + encode_view(tag@),
    decreases tag,
{
    let structure = match &tag.payload {
        Payload::Primitive(_) => Structure::Primitive,
        Payload::Constructed(_) => Structure::Constructed,
    };
    write_type(&tag.class, structure, out);
    write_length(tag.length, out);
    write_value(&tag.payload, out);
    assert(out@ =~= old(out)@ + encode_view(tag@));
}

/// The encoding of an element.
pub fn encode(tag: &Tag) -> (r: Vec<u8>)
    requires
        tag.wf(),
    ensures
        r@ == encode_view(tag@),
{
    let mut out: Vec<u8> = Vec::new();
    write(tag, &mut out);
    assert(out@ =~= encode_view(tag@));
    out
}

/// Collects the encodings of elements until they are taken out with `flush`.
pub struct Encoder {
    buf: Vec<u8>,
}

impl View for Encoder {
    type V = Seq<u8>;

    /// The bytes written and not yet taken out.
    closed spec fn view(&self) -> Seq<u8> {
        self.buf@
    }
}

impl Encoder {
    /// An encoder whose pending bytes start with `wtr`.
    pub fn from_writer_raw(wtr: Vec<u8>) -> (r: Encoder)
        ensures
            r@ == wtr@,
    {
        Encoder { buf: wtr }
    }

    /// Takes out the pending bytes, leaving none.
    pub fn flush(&mut self) -> (r: Vec<u8>)
        ensures
            r@ == old(self)@,
            final(self)@ == Seq::<u8>::empty(),
    {
        let mut out: Vec<u8> = Vec::new();
        out.append(&mut self.buf);
        assert(out@ =~= old(self)@);
        out
    }

    /// Appends the encoding of `tag` to the pending bytes.
    pub fn encode(&mut self, tag: Tag)
        requires
            tag.wf(),
        ensures
            final(self)@ == old(self)@ + encode_view(tag@),
    {
        write(&tag, &mut self.buf);
    }
}

} // verus!
