use vstd::prelude::*;

use crate::error::ASN1Error;
use crate::decoder::{decode, parse_element, parse_length, read_length, Parse};
use crate::encoder::{write_length, write_type};
use crate::wire::{encode_all, encode_body, encode_view, length_octets, type_octets};

verus! {

/// The universal tag numbers of ASN.1 (X.680) that fit in the five bits of a
/// type octet.
#[derive(Debug, Clone, Copy, PartialEq, Eq, Structural)]
pub enum UniversalTypes {
    Eoc,
    Boolean,
    Integer,
    BitString,
    OctetString,
    Null,
    ObjectIdentifier,
    ObjectDescriptor,
    External,
    Real,
    Enumerated,
    EmbeddedPdv,
    Utf8String,
    RelativeOid,
    Sequence,
    SetOf,
    NumericString,
    PrintableString,
    T61String,
    VideotexString,
    Ia5String,
    UtcTime,
    GeneralizedTime,
    GraphicString,
    VisibleString,
    GeneralString,
    UniversalString,
    CharacterString,
    BmpString,
}

/// The universal type with tag number `n`, if any: 0 to 30 but for the
/// reserved 14 and 15.
pub open spec fn universal_of(n: nat) -> Option<UniversalTypes> {
    if n == 0 { Some(UniversalTypes::Eoc) }
    else if n == 1 { Some(UniversalTypes::Boolean) }
    else if n == 2 { Some(UniversalTypes::Integer) }
    else if n == 3 { Some(UniversalTypes::BitString) }
    else if n == 4 { Some(UniversalTypes::OctetString) }
    else if n == 5 { Some(UniversalTypes::Null) }
    else if n == 6 { Some(UniversalTypes::ObjectIdentifier) }
    else if n == 7 { Some(UniversalTypes::ObjectDescriptor) }
    else if n == 8 { Some(UniversalTypes::External) }
    else if n == 9 { Some(UniversalTypes::Real) }
    else if n == 10 { Some(UniversalTypes::Enumerated) }
    else if n == 11 { Some(UniversalTypes::EmbeddedPdv) }
    else if n == 12 { Some(UniversalTypes::Utf8String) }
    else if n == 13 { Some(UniversalTypes::RelativeOid) }
    else if n == 16 { Some(UniversalTypes::Sequence) }
    else if n == 17 { Some(UniversalTypes::SetOf) }
    else if n == 18 { Some(UniversalTypes::NumericString) }
    else if n == 19 { Some(UniversalTypes::PrintableString) }
    else if n == 20 { Some(UniversalTypes::T61String) }
    else if n == 21 { Some(UniversalTypes::VideotexString) }
    else if n == 22 { Some(UniversalTypes::Ia5String) }
    else if n == 23 { Some(UniversalTypes::UtcTime) }
    else if n == 24 { Some(UniversalTypes::GeneralizedTime) }
    else if n == 25 { Some(UniversalTypes::GraphicString) }
    else if n == 26 { Some(UniversalTypes::VisibleString) }
    else if n == 27 { Some(UniversalTypes::GeneralString) }
    else if n == 28 { Some(UniversalTypes::UniversalString) }
    else if n == 29 { Some(UniversalTypes::CharacterString) }
    else if n == 30 { Some(UniversalTypes::BmpString) }
    else { None }
}

impl UniversalTypes {
    /// The tag number of the type.
    pub open spec fn spec_number(self) -> nat {
        match self {
            UniversalTypes::Eoc => 0,
            UniversalTypes::Boolean => 1,
            UniversalTypes::Integer => 2,
            UniversalTypes::BitString => 3,
            UniversalTypes::OctetString => 4,
            UniversalTypes::Null => 5,
            UniversalTypes::ObjectIdentifier => 6,
            UniversalTypes::ObjectDescriptor => 7,
            UniversalTypes::External => 8,
            UniversalTypes::Real => 9,
            UniversalTypes::Enumerated => 10,
            UniversalTypes::EmbeddedPdv => 11,
            UniversalTypes::Utf8String => 12,
            UniversalTypes::RelativeOid => 13,
            UniversalTypes::Sequence => 16,
            UniversalTypes::SetOf => 17,
            UniversalTypes::NumericString => 18,
            UniversalTypes::PrintableString => 19,
            UniversalTypes::T61String => 20,
            UniversalTypes::VideotexString => 21,
            UniversalTypes::Ia5String => 22,
            UniversalTypes::UtcTime => 23,
            UniversalTypes::GeneralizedTime => 24,
            UniversalTypes::GraphicString => 25,
            UniversalTypes::VisibleString => 26,
            UniversalTypes::GeneralString => 27,
            UniversalTypes::UniversalString => 28,
            UniversalTypes::CharacterString => 29,
            UniversalTypes::BmpString => 30,
        }
    }

    /// The type with tag number `v`; `InvalidASN1` where no universal type has it.
    pub fn from_u8(v: u8) -> (r: Result<UniversalTypes, ASN1Error>)
        ensures
            r == match universal_of(v as nat) {
                Some(t) => Ok(t),
                None => Err(ASN1Error::InvalidASN1),
            },
    {
        match v {
            0 => Ok(UniversalTypes::Eoc),
            1 => Ok(UniversalTypes::Boolean),
            2 => Ok(UniversalTypes::Integer),
            3 => Ok(UniversalTypes::BitString),
            4 => Ok(UniversalTypes::OctetString),
            5 => Ok(UniversalTypes::Null),
            6 => Ok(UniversalTypes::ObjectIdentifier),
            7 => Ok(UniversalTypes::ObjectDescriptor),
            8 => Ok(UniversalTypes::External),
            9 => Ok(UniversalTypes::Real),
            10 => Ok(UniversalTypes::Enumerated),
            11 => Ok(UniversalTypes::EmbeddedPdv),
            12 => Ok(UniversalTypes::Utf8String),
            13 => Ok(UniversalTypes::RelativeOid),
            16 => Ok(UniversalTypes::Sequence),
            17 => Ok(UniversalTypes::SetOf),
            18 => Ok(UniversalTypes::NumericString),
            19 => Ok(UniversalTypes::PrintableString),
            20 => Ok(UniversalTypes::T61String),
            21 => Ok(UniversalTypes::VideotexString),
            22 => Ok(UniversalTypes::Ia5String),
            23 => Ok(UniversalTypes::UtcTime),
            24 => Ok(UniversalTypes::GeneralizedTime),
            25 => Ok(UniversalTypes::GraphicString),
            26 => Ok(UniversalTypes::VisibleString),
            27 => Ok(UniversalTypes::GeneralString),
            28 => Ok(UniversalTypes::UniversalString),
            29 => Ok(UniversalTypes::CharacterString),
            30 => Ok(UniversalTypes::BmpString),
            _ => Err(ASN1Error::InvalidASN1),
        }
    }

    /// The tag number of the type.
    pub fn number(self) -> (r: u8)
        ensures
            r as nat == self.spec_number(),
    {
        match self {
            UniversalTypes::Eoc => 0,
            UniversalTypes::Boolean => 1,
            UniversalTypes::Integer => 2,
            UniversalTypes::BitString => 3,
            UniversalTypes::OctetString => 4,
            UniversalTypes::Null => 5,
            UniversalTypes::ObjectIdentifier => 6,
            UniversalTypes::ObjectDescriptor => 7,
            UniversalTypes::External => 8,
            UniversalTypes::Real => 9,
            UniversalTypes::Enumerated => 10,
            UniversalTypes::EmbeddedPdv => 11,
            UniversalTypes::Utf8String => 12,
            UniversalTypes::RelativeOid => 13,
            UniversalTypes::Sequence => 16,
            UniversalTypes::SetOf => 17,
            UniversalTypes::NumericString => 18,
            UniversalTypes::PrintableString => 19,
            UniversalTypes::T61String => 20,
            UniversalTypes::VideotexString => 21,
            UniversalTypes::Ia5String => 22,
            UniversalTypes::UtcTime => 23,
            UniversalTypes::GeneralizedTime => 24,
            UniversalTypes::GraphicString => 25,
            UniversalTypes::VisibleString => 26,
            UniversalTypes::GeneralString => 27,
            UniversalTypes::UniversalString => 28,
            UniversalTypes::CharacterString => 29,
            UniversalTypes::BmpString => 30,
        }
    }
}

/// The class of a tag, with its tag number.
#[derive(Debug, Clone, Copy, PartialEq, Eq, Structural)]
pub enum Class {
    Universal(UniversalTypes),
    Application(u64),
    ContextSpecific(u64),
    Private(u64),
}

/// The class with class bits `cls` and tag number `n`, if there is one.
pub open spec fn class_of(cls: nat, n: nat) -> Option<Class> {
    if cls == 0 {
        match universal_of(n) {
            Some(t) => Some(Class::Universal(t)),
            None => None,
        }
    } else if n > u64::MAX {
        None
    } else if cls == 1 {
        Some(Class::Application(n as u64))
    } else if cls == 2 {
        Some(Class::ContextSpecific(n as u64))
    } else if cls == 3 {
        Some(Class::Private(n as u64))
    } else {
        None
    }
}

impl Class {
    /// The two class bits of the type octet.
    pub open spec fn class_bits(self) -> nat {
        match self {
            Class::Universal(_) => 0,
            Class::Application(_) => 1,
            Class::ContextSpecific(_) => 2,
            Class::Private(_) => 3,
        }
    }

    /// The tag number.
    pub open spec fn tag_number(self) -> nat {
        match self {
            Class::Universal(t) => t.spec_number(),
            Class::Application(n) => n as nat,
            Class::ContextSpecific(n) => n as nat,
            Class::Private(n) => n as nat,
        }
    }

    /// The class with class bits `class` and tag number `number`;
    /// `InvalidASN1` where there is none.
    pub fn construct(class: u8, number: u64) -> (r: Result<Class, ASN1Error>)
        ensures
            r == match class_of(class as nat, number as nat) {
                Some(c) => Ok(c),
                None => Err(ASN1Error::InvalidASN1),
            },
    {
        match class {
            0 => {
                if number > 30 {
                    Err(ASN1Error::InvalidASN1)
                } else {
                    match UniversalTypes::from_u8(number as u8) {
                        Ok(t) => Ok(Class::Universal(t)),
                        Err(e) => Err(e),
                    }
                }
            },
            1 => Ok(Class::Application(number)),
            2 => Ok(Class::ContextSpecific(number)),
            3 => Ok(Class::Private(number)),
            _ => Err(ASN1Error::InvalidASN1),
        }
    }

    /// The two class bits of the type octet.
    pub fn class_number(&self) -> (r: ClassNumber)
        ensures
            r.spec_bits() == self.class_bits(),
    {
        match self {
            Class::Universal(_) => ClassNumber::Universal,
            Class::Application(_) => ClassNumber::Application,
            Class::ContextSpecific(_) => ClassNumber::ContextSpecific,
            Class::Private(_) => ClassNumber::Private,
        }
    }

    /// The tag number.
    pub fn number(&self) -> (r: u64)
        ensures
            r as nat == self.tag_number(),
    {
        match self {
            Class::Universal(t) => t.number() as u64,
            Class::Application(n) => *n,
            Class::ContextSpecific(n) => *n,
            Class::Private(n) => *n,
        }
    }
}

/// The class bits of a type octet, as a value of their own.
#[derive(Debug, Clone, Copy, PartialEq, Eq, Structural)]
pub enum ClassNumber {
    Universal,
    Application,
    ContextSpecific,
    Private,
}

impl ClassNumber {
    /// The value of the two bits.
    pub open spec fn spec_bits(self) -> nat {
        match self {
            ClassNumber::Universal => 0,
            ClassNumber::Application => 1,
            ClassNumber::ContextSpecific => 2,
            ClassNumber::Private => 3,
        }
    }

    /// The class bits with value `v`.
    pub fn from_u8(v: u8) -> (r: ClassNumber)
        requires
            v < 4,
        ensures
            r.spec_bits() == v,
    {
        match v {
            0 => ClassNumber::Universal,
            1 => ClassNumber::Application,
            2 => ClassNumber::ContextSpecific,
            _ => ClassNumber::Private,
        }
    }

    /// The value of the two bits.
    pub fn bits(self) -> (r: u8)
        ensures
            r as nat == self.spec_bits(),
    {
        match self {
            ClassNumber::Universal => 0,
            ClassNumber::Application => 1,
            ClassNumber::ContextSpecific => 2,
            ClassNumber::Private => 3,
        }
    }
}

/// Whether an element holds raw bytes or other elements.
#[derive(Debug, Clone, Copy, PartialEq, Eq, Structural)]
pub enum Structure {
    Primitive,
    Constructed,
}

impl Structure {
    /// The structure bit of the type octet.
    pub open spec fn spec_bit(self) -> nat {
        match self {
            Structure::Primitive => 0,
            Structure::Constructed => 1,
        }
    }

    /// The structure with bit value `v`.
    pub fn from_u8(v: u8) -> (r: Structure)
        requires
            v < 2,
        ensures
            r.spec_bit() == v,
    {
        if v == 0 {
            Structure::Primitive
        } else {
            Structure::Constructed
        }
    }
}

/// The value of an element.
#[derive(Debug, PartialEq, Eq)]
pub enum Payload {
    Primitive(Vec<u8>),
    Constructed(Vec<Tag>),
}

/// One BER element. `length` is the length of the encoded payload, not of
/// the whole element.
#[derive(Debug, PartialEq, Eq)]
pub struct Tag {
    pub class: Class,
    pub payload: Payload,
    pub length: u64,
}

/// The value of an element, as a mathematical tree.
pub enum PayloadView {
    Primitive(Seq<u8>),
    Constructed(Seq<TagView>),
}

/// An element as a mathematical tree: its class, its stated payload length
/// and its value.
pub struct TagView {
    pub class: Class,
    pub length: nat,
    pub payload: PayloadView,
}

impl TagView {
    /// The stated length is that of the encoded payload, and fits the 64 bits
    /// of a `Tag`, here and in every element below.
    pub open spec fn wf(self) -> bool
        decreases self,
    {
        &&& self.length == encode_body(self.payload).len()
        &&& self.length <= u64::MAX
        &&& self.payload.wf()
    }
}

impl PayloadView {
    /// Every element of the payload is well formed.
    pub open spec fn wf(self) -> bool
        decreases self,
    {
        match self {
            PayloadView::Primitive(_) => true,
            PayloadView::Constructed(ts) => forall|i: int| 0 <= i < ts.len() ==> (#[trigger] ts[i]).wf(),
        }
    }
}

/// An element as a mathematical tree.
pub open spec fn tag_view(t: Tag) -> TagView
    decreases t,
{
    TagView { class: t.class, length: t.length as nat, payload: payload_view(t.payload) }
}

/// A payload as a mathematical tree.
pub open spec fn payload_view(p: Payload) -> PayloadView
    decreases p,
{
    match p {
        Payload::Primitive(v) => PayloadView::Primitive(v@),
        Payload::Constructed(ts) => PayloadView::Constructed(tags_view(ts@)),
    }
}

/// Elements as mathematical trees, in order.
pub open spec fn tags_view(ts: Seq<Tag>) -> Seq<TagView>
    decreases ts,
{
    if ts.len() == 0 {
        seq![]
    } else {
        tags_view(ts.subrange(0, ts.len() - 1)).push(tag_view(ts[ts.len() - 1]))
    }
}

/// `tags_view` views each element in place.
pub proof fn lemma_tags_view(ts: Seq<Tag>)
    ensures
        tags_view(ts).len() == ts.len(),
        forall|i: int| 0 <= i < ts.len() ==> #[trigger] tags_view(ts)[i] == tag_view(ts[i]),
    decreases ts.len(),
{
    if ts.len() > 0 {
        lemma_tags_view(ts.subrange(0, ts.len() - 1));
    }
}

impl Tag {
    /// `length` is the length of the encoded payload, here and in every
    /// element below.
    pub open spec fn wf(self) -> bool {
        tag_view(self).wf()
    }
}

impl View for Tag {
    type V = TagView;

    open spec fn view(&self) -> TagView {
        tag_view(*self)
    }
}

impl View for Payload {
    type V = PayloadView;

    open spec fn view(&self) -> PayloadView {
        payload_view(*self)
    }
}

impl Payload {
    /// The length of the encoded payload: its bytes, or the full encodings of
    /// its elements.
    pub fn len(&self) -> (r: usize)
        requires
            self@.wf(),
            encode_body(self@).len() <= usize::MAX,
        ensures
            r == encode_body(self@).len(),
    {
        match self {
            Payload::Primitive(v) => v.len(),
            Payload::Constructed(tags) => {
                let ghost views = tags_view(tags@);
                proof {
                    lemma_tags_view(tags@);
                    assert(self@ == PayloadView::Constructed(views));
                    lemma_encode_all_prefix_len(views, views.len() as int);
                }
                let mut total: usize = 0;
                let mut k: usize = 0;
                while k < tags.len()
                    invariant
                        k <= tags@.len(),
                        self@ == PayloadView::Constructed(views),
                        self@.wf(),
                        views == tags_view(tags@),
                        views.len() == tags@.len(),
                        forall|i: int| 0 <= i < tags@.len() ==> #[trigger] views[i] == tag_view(tags@[i]),
                        encode_all(views).len() <= usize::MAX,
                        total == encode_all(views.subrange(0, k as int)).len(),
                    decreases tags@.len() - k,
                {
                    proof {
                        let p = self@;
                        assert(p matches PayloadView::Constructed(q) && q == views);
                        assert(views[k as int].wf());
                        assert(views.subrange(0, k + 1).subrange(0, k as int) =~= views.subrange(
                            0,
                            k as int,
                        ));
                        lemma_encode_all_prefix_len(views, k + 1);
                    }
                    total = total + tags[k].len();
                    k = k + 1;
                }
                assert(views.subrange(0, k as int) =~= views);
                total
            },
        }
    }

    /// The elements of a constructed payload.
    pub fn into_inner_constructed(self) -> (r: Option<Vec<Tag>>)
        ensures
            r == match self {
                Payload::Constructed(tags) => Some(tags),
                Payload::Primitive(_) => None::<Vec<Tag>>,
            },
    {
        match self {
            Payload::Primitive(_) => None,
            Payload::Constructed(tags) => Some(tags),
        }
    }

    /// The bytes of a primitive payload.
    pub fn into_inner_primitive(self) -> (r: Option<Vec<u8>>)
        ensures
            r == match self {
                Payload::Primitive(bytes) => Some(bytes),
                Payload::Constructed(_) => None::<Vec<u8>>,
            },
    {
        match self {
            Payload::Constructed(_) => None,
            Payload::Primitive(bytes) => Some(bytes),
        }
    }
}

/// The encodings of the first `k` elements take no more than all of them.
pub proof fn lemma_encode_all_prefix_len(ts: Seq<TagView>, k: int)
    requires
        0 <= k <= ts.len(),
    ensures
        encode_all(ts.subrange(0, k)).len() <= encode_all(ts).len(),
    decreases ts.len(),
{
    if k < ts.len() {
        let init = ts.subrange(0, ts.len() - 1);
        assert(init.subrange(0, k) =~= ts.subrange(0, k));
        lemma_encode_all_prefix_len(init, k);
    } else {
        assert(ts.subrange(0, k) =~= ts);
    }
}

impl Tag {
    /// The element of class `class` with payload `payload`, its length set
    /// from the payload.
    pub fn new(class: Class, payload: Payload) -> (r: Tag)
        requires
            payload@.wf(),
            encode_body(payload@).len() <= usize::MAX,
        ensures
            r@ == (TagView { class, length: encode_body(payload@).len(), payload: payload@ }),
            r.wf(),
    {
        let length = payload.len() as u64;
        Tag { class, payload, length }
    }

    /// Reads the element at the start of `buf`: the number of bytes it takes
    /// and the element, `Ok(None)` where more bytes are needed, or the error.
    pub fn read(buf: &[u8]) -> (r: Result<Option<(usize, Tag)>, ASN1Error>)
        ensures
            match r {
                Ok(Some((n, t))) => parse_element(buf@, 0) == Parse::Done(n as int, t@),
                Ok(None) => parse_element(buf@, 0) == Parse::<TagView>::Incomplete,
                Err(e) => parse_element(buf@, 0) == Parse::<TagView>::Failed(e),
            },
    {
        decode(buf)
    }

    /// Reads the length octets at the start of `buf`: the number of bytes
    /// they take and the length, `Ok(None)` where more bytes are needed, or
    /// the error.
    pub fn read_lenght(buf: &[u8]) -> (r: Result<Option<(usize, u64)>, ASN1Error>)
        ensures
            match r {
                Ok(Some((n, len))) => parse_length(buf@, 0) == Parse::Done(n as int, len as nat),
                Ok(None) => parse_length(buf@, 0) == Parse::<nat>::Incomplete,
                Err(e) => parse_length(buf@, 0) == Parse::<nat>::Failed(e),
            },
    {
        read_length(buf, 0)
    }

    /// Appends the encoding of the element to `out`.
    pub fn write(&self, out: &mut Vec<u8>)
        requires
            self.wf(),
        ensures
            final(out)@ == old(out)@ + encode_view(self@),
    {
        crate::encoder::write(self, out)
    }

    /// The length of the whole encoded element: type octets, length octets
    /// and payload.
    pub fn len(&self) -> (r: usize)
        requires
            self.wf(),
            encode_view(self@).len() <= usize::MAX,
        ensures
            r == encode_view(self@).len(),
    {
        let structure = match &self.payload {
            Payload::Primitive(_) => Structure::Primitive,
            Payload::Constructed(_) => Structure::Constructed,
        };
        let mut header: Vec<u8> = Vec::new();
        write_type(&self.class, structure, &mut header);
        write_length(self.length, &mut header);
        assert(header@ =~= type_octets(self.class, self@.payload is Constructed) + length_octets(
            self.length as nat,
        ));
        header.len() + self.length as usize
    }

    /// Whether the element has class `class`.
    pub fn is_class(&self, class: Class) -> (r: bool)
        ensures
            r == (self.class == class),
    {
        self.class == class
    }

    /// The payload, giving up the element.
    pub fn into_payload(self) -> (r: Payload)
        ensures
            r == self.payload,
    {
        self.payload
    }

    /// Changes the class; payload and length stay.
    pub fn set_class(&mut self, class: Class)
        ensures
            final(self).class == class,
            final(self).payload == old(self).payload,
            final(self).length == old(self).length,
            old(self).wf() ==> final(self).wf(),
    {
        self.class = class;
    }
}

} // verus!
