//! The requests a client sends to open and close a session.
use vstd::prelude::*;

use crate::tag::{Class, Payload, PayloadView, Tag, TagView, UniversalTypes};
use crate::wire::encode_all;

verus! {

/// Application tag number of a bind request.
pub const BIND_REQUEST: u64 = 0;

/// Application tag number of an unbind request.
pub const UNBIND_REQUEST: u64 = 2;

/// The LDAP protocol version a bind announces.
pub const LDAP_VERSION: u8 = 3;

/// A primitive element of class `class` with bytes `b`.
pub open spec fn primitive_view(class: Class, b: Seq<u8>) -> TagView {
    TagView { class, length: b.len(), payload: PayloadView::Primitive(b) }
}

/// The elements of a simple bind request: version 3, the name, and the
/// password as context-specific tag 0.
pub open spec fn bind_elements(dn: Seq<u8>, password: Seq<u8>) -> Seq<TagView> {
    seq![
        primitive_view(Class::Universal(UniversalTypes::Integer), seq![LDAP_VERSION]),
        primitive_view(Class::Universal(UniversalTypes::OctetString), dn),
        primitive_view(Class::ContextSpecific(0), password),
    ]
}

/// A simple bind request for name `dn` with `password`.
pub open spec fn bind_request_view(dn: Seq<u8>, password: Seq<u8>) -> TagView {
    TagView {
        class: Class::Application(BIND_REQUEST),
        length: encode_all(bind_elements(dn, password)).len(),
        payload: PayloadView::Constructed(bind_elements(dn, password)),
    }
}

/// A primitive element of class `class` holding `bytes`.
fn primitive(class: Class, bytes: Vec<u8>) -> (r: Tag)
    ensures
        r@ == primitive_view(class, bytes@),
        r.wf(),
{
    let length = bytes.len() as u64;
    Tag { class, payload: Payload::Primitive(bytes), length }
}

/// The simple bind request for name `dn` with `password`.
pub fn bind_request(dn: Vec<u8>, password: Vec<u8>) -> (r: Tag)
    requires
        encode_all(bind_elements(dn@, password@)).len() <= usize::MAX,
    ensures
        r@ == bind_request_view(dn@, password@),
        r.wf(),
{
    let ghost (d, p) = (dn@, password@);
    let mut version: Vec<u8> = Vec::new();
    version.push(LDAP_VERSION);
    proof {
        assert(version@ =~= seq![LDAP_VERSION]);
    }
    let elements = vec![
        primitive(Class::Universal(UniversalTypes::Integer), version),
        primitive(Class::Universal(UniversalTypes::OctetString), dn),
        primitive(Class::ContextSpecific(0), password),
    ];
    proof {
        let e = bind_elements(d, p);
        crate::tag::lemma_tags_view(elements@);
        assert(crate::tag::tags_view(elements@) =~= e);
        assert(PayloadView::Constructed(e).wf());
    }
    Tag::new(Class::Application(BIND_REQUEST), Payload::Constructed(elements))
}

/// The unbind request: an empty primitive element.
pub fn unbind_request() -> (r: Tag)
    ensures
        r@ == primitive_view(Class::Application(UNBIND_REQUEST), Seq::<u8>::empty()),
        r.wf(),
{
    let r = primitive(Class::Application(UNBIND_REQUEST), Vec::new());
    assert(r@.payload == PayloadView::Primitive(Seq::<u8>::empty()));
    r
}

} // verus!
