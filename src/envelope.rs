//! The LDAP message envelope: a sequence of message ID, operation and
//! optional controls.
use vstd::prelude::*;

use crate::decoder::{decode, parse_element, Parse};
use crate::error::LDAPError;
use crate::tag::{lemma_tags_view, tags_view, Class, Payload, PayloadView, Tag, TagView, UniversalTypes};
use crate::types::{int_of, int_tag, lemma_int_octets, ASNType};
use crate::wire::{encode_all, encode_view, pow256};

verus! {

/// The view of an optional element.
pub open spec fn opt_view(o: Option<Tag>) -> Option<TagView> {
    match o {
        Some(t) => Some(t@),
        None => None,
    }
}

/// The elements of an envelope: the message ID as a universal integer, the
/// operation, and the controls if there are any.
pub open spec fn envelope_children(id: i32, op: TagView, controls: Option<TagView>) -> Seq<
    TagView,
> {
    let base = seq![int_tag(id as int, 4, Class::Universal(UniversalTypes::Integer)), op];
    match controls {
        Some(c) => base.push(c),
        None => base,
    }
}

/// The envelope of an operation: a universal sequence of its elements.
pub open spec fn envelope_view(id: i32, op: TagView, controls: Option<TagView>) -> TagView {
    let children = envelope_children(id, op, controls);
    TagView {
        class: Class::Universal(UniversalTypes::Sequence),
        length: encode_all(children).len(),
        payload: PayloadView::Constructed(children),
    }
}

/// What an envelope holds: message ID, operation and controls. A primitive
/// element, or one with other than two or three elements, has the wrong
/// structure; a first element that is no integer of at most four octets
/// does not decode.
pub open spec fn unwrap_view(t: TagView) -> Result<(i32, TagView, Option<TagView>), LDAPError> {
    match t.payload {
        PayloadView::Primitive(_) => Err(LDAPError::InvalidStructure),
        PayloadView::Constructed(ts) => if ts.len() != 2 && ts.len() != 3 {
            Err(LDAPError::InvalidStructure)
        } else {
            match int_of(ts[0], 4) {
                Some(v) => Ok(
                    (v as i32, ts[1], if ts.len() == 3 { Some(ts[2]) } else { None }),
                ),
                None => Err(LDAPError::DecodingFailure),
            }
        },
    }
}

/// Whether the classes of an envelope received from the wire are those of an
/// LDAP message: a universal sequence whose first element, the message ID, is
/// a universal integer and whose second, the operation, is application-tagged.
pub open spec fn message_classes_ok(t: TagView) -> bool {
    &&& t.class == Class::Universal(UniversalTypes::Sequence)
    &&& t.payload matches PayloadView::Constructed(ts) ==> (ts.len() >= 2 ==> {
        &&& ts[0].class == Class::Universal(UniversalTypes::Integer)
        &&& ts[1].class is Application
    })
}

/// The message at the start of some bytes: where it ends and what its
/// envelope holds, `None` where more bytes are needed, or the error. An
/// element whose classes are not those of a message has the wrong structure.
pub open spec fn message_of(s: Seq<u8>) -> Result<
    Option<(int, i32, TagView, Option<TagView>)>,
    LDAPError,
> {
    match parse_element(s, 0) {
        Parse::Done(n, t) => if !message_classes_ok(t) {
            Err(LDAPError::InvalidStructure)
        } else {
            match unwrap_view(t) {
                Ok((id, op, c)) => Ok(Some((n, id, op, c))),
                Err(e) => Err(e),
            }
        },
        Parse::Incomplete => Ok(None),
        Parse::Failed(e) => Err(LDAPError::ASN1(e)),
    }
}

/// Whether an operation and its controls can be put in an envelope: they
/// are well formed and the envelope's payload fits in memory.
pub open spec fn envelope_fits(id: i32, op: TagView, controls: Option<TagView>) -> bool {
    &&& op.wf()
    &&& (controls matches Some(c) ==> c.wf())
    &&& encode_all(envelope_children(id, op, controls)).len() <= usize::MAX
}

proof fn lemma_int_tag_wf(id: i32)
    ensures
        int_tag(id as int, 4, Class::Universal(UniversalTypes::Integer)).wf(),
        int_of(int_tag(id as int, 4, Class::Universal(UniversalTypes::Integer)), 4) == Some(
            id as int,
        ),
{
    assert(pow256(3) == 0x100_0000) by {
        reveal_with_fuel(pow256, 4);
    }
    lemma_int_octets(id as int, 4);
}

/// Whether the classes of `t` are those of an LDAP message.
fn check_message_classes(t: &Tag) -> (r: bool)
    ensures
        r == message_classes_ok(t@),
{
    if t.class != Class::Universal(UniversalTypes::Sequence) {
        return false;
    }
    match &t.payload {
        Payload::Primitive(_) => true,
        Payload::Constructed(tags) => {
            proof {
                lemma_tags_view(tags@);
                assert(t@.payload == PayloadView::Constructed(tags_view(tags@)));
            }
            if tags.len() < 2 {
                return true;
            }
            let id_ok = tags[0].class == Class::Universal(UniversalTypes::Integer);
            let op_ok = match tags[1].class {
                Class::Application(_) => true,
                _ => false,
            };
            id_ok && op_ok
        },
    }
}

/// Puts an operation, and its controls if any, in an envelope with message ID
/// `msgid`.
pub fn build_envelope(msgid: i32, protocol_op: Tag, controls: Option<Tag>) -> (r: Tag)
    requires
        envelope_fits(msgid, protocol_op@, opt_view(controls)),
    ensures
        r@ == envelope_view(msgid, protocol_op@, opt_view(controls)),
        r.wf(),
{
    let id_tag = msgid.into_ber_universal();
    let ghost op_view = protocol_op@;
    let mut elements: Vec<Tag> = Vec::new();
    proof {
        crate::decoder::lemma_tags_view_push(elements@, id_tag);
    }
    elements.push(id_tag);
    proof {
        crate::decoder::lemma_tags_view_push(elements@, protocol_op);
    }
    elements.push(protocol_op);
    match controls {
        Some(c) => {
            proof {
                crate::decoder::lemma_tags_view_push(elements@, c);
            }
            elements.push(c);
        },
        None => {},
    }
    let ghost children = envelope_children(msgid, op_view, opt_view(controls));
    assert(tags_view(elements@) =~= children) by {
        assert(tags_view(Seq::<Tag>::empty()) =~= Seq::<TagView>::empty());
    }
    proof {
        lemma_int_tag_wf(msgid);
        assert forall|i: int| 0 <= i < children.len() implies #[trigger] children[i].wf() by {}
        assert(PayloadView::Constructed(children).wf());
    }
    elements.into_ber_universal()
}

/// The message ID, operation and controls in an envelope.
pub fn unwrap_envelope(envelope: Tag) -> (r: Result<(i32, Tag, Option<Tag>), LDAPError>)
    ensures
        match r {
            Ok((id, op, c)) => unwrap_view(envelope@) == Ok::<
                (i32, TagView, Option<TagView>),
                LDAPError,
            >((id, op@, opt_view(c))),
            Err(e) => unwrap_view(envelope@) == Err::<(i32, TagView, Option<TagView>), LDAPError>(
                e,
            ),
        },
{
    let ghost whole = envelope@;
    let Tag { payload, .. } = envelope;
    match payload {
        Payload::Primitive(_) => Err(LDAPError::InvalidStructure),
        Payload::Constructed(mut tags) => {
            let ghost all = tags@;
            proof {
                lemma_tags_view(all);
                assert(whole.payload == PayloadView::Constructed(tags_view(all)));
            }
            let n = tags.len();
            if n != 2 && n != 3 {
                return Err(LDAPError::InvalidStructure);
            }
            let controls = if n == 3 {
                tags.pop()
            } else {
                None
            };
            let op = tags.pop().unwrap();
            let mut id_tag = tags.pop().unwrap();
            assert(id_tag == all[0]);
            assert(op == all[1]);
            match i32::from_tag(&mut id_tag) {
                Some(id) => Ok((id, op, controls)),
                None => Err(LDAPError::DecodingFailure),
            }
        },
    }
}

/// A decoded message: its ID, its operation and its controls.
pub struct LDAPMessage {
    pub id: i32,
    pub protocol_op: Tag,
    pub controls: Option<Tag>,
}

/// Reads and writes whole messages.
pub struct LDAPCodec;

impl LDAPCodec {
    pub fn new() -> (r: LDAPCodec) {
        LDAPCodec
    }

    /// Reads the message at the start of `buf`: the number of bytes it takes
    /// and the message, `Ok(None)` where more bytes are needed, or the error.
    /// An element that is not a universal sequence of a universal integer and
    /// an application-tagged operation is `InvalidStructure`.
    pub fn decode(&mut self, buf: &[u8]) -> (r: Result<Option<(usize, LDAPMessage)>, LDAPError>)
        ensures
            match r {
                Ok(Some((n, m))) => message_of(buf@) == Ok::<
                    Option<(int, i32, TagView, Option<TagView>)>,
                    LDAPError,
                >(Some((n as int, m.id, m.protocol_op@, opt_view(m.controls)))),
                Ok(None) => message_of(buf@) == Ok::<
                    Option<(int, i32, TagView, Option<TagView>)>,
                    LDAPError,
                >(None),
                Err(e) => message_of(buf@) == Err::<
                    Option<(int, i32, TagView, Option<TagView>)>,
                    LDAPError,
                >(e),
            },
    {
        match decode(buf) {
            Ok(Some((n, tag))) => if !check_message_classes(&tag) {
                Err(LDAPError::InvalidStructure)
            } else {
                match unwrap_envelope(tag) {
                    Ok((id, protocol_op, controls)) => Ok(
                        Some((n, LDAPMessage { id, protocol_op, controls })),
                    ),
                    Err(e) => Err(e),
                }
            },
            Ok(None) => Ok(None),
            Err(e) => Err(LDAPError::ASN1(e)),
        }
    }

    /// Appends the encoding of the message's envelope to `into`.
    pub fn encode(&mut self, msg: LDAPMessage, into: &mut Vec<u8>)
        requires
            envelope_fits(msg.id, msg.protocol_op@, opt_view(msg.controls)),
        ensures
            final(into)@ == old(into)@ + encode_view(
                envelope_view(msg.id, msg.protocol_op@, opt_view(msg.controls)),
            ),
    {
        let LDAPMessage { id, protocol_op, controls } = msg;
        let envelope = build_envelope(id, protocol_op, controls);
        envelope.write(into);
    }
}

/// Unwrapping an envelope gives back the message ID, operation and controls
/// that were put in it.
pub proof fn lemma_envelope_round_trip(id: i32, op: TagView, controls: Option<TagView>)
    ensures
        unwrap_view(envelope_view(id, op, controls)) == Ok::<
            (i32, TagView, Option<TagView>),
            LDAPError,
        >((id, op, controls)),
{
    lemma_int_tag_wf(id);
}

} // verus!
