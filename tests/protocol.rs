use ldap::{
    bind_request, build_envelope, encode, unbind_request, unwrap_envelope, ASN1Error, ASNType,
    Class, Frame, LDAPAuth, LDAPCodec, LDAPError, LDAPMessage, LdapCodec, Payload, Tag,
    UniversalTypes,
};

fn entry(name: &str) -> Tag {
    let dn = Tag::new(
        Class::Universal(UniversalTypes::OctetString),
        Payload::Primitive(name.to_string().into_bytes()),
    );
    let attrs = Tag::new(Class::Universal(UniversalTypes::Sequence), Payload::Constructed(vec![]));
    Tag::new(Class::Application(4), Payload::Constructed(vec![dn, attrs]))
}

fn done() -> Tag {
    let code = Tag::new(Class::Universal(UniversalTypes::Enumerated), Payload::Primitive(vec![0]));
    let matched = Tag::new(Class::Universal(UniversalTypes::OctetString), Payload::Primitive(vec![]));
    let message = Tag::new(Class::Universal(UniversalTypes::OctetString), Payload::Primitive(vec![]));
    Tag::new(Class::Application(5), Payload::Constructed(vec![code, matched, message]))
}

fn bind_response() -> Tag {
    let code = Tag::new(Class::Universal(UniversalTypes::Enumerated), Payload::Primitive(vec![0]));
    let matched = Tag::new(Class::Universal(UniversalTypes::OctetString), Payload::Primitive(vec![]));
    let message = Tag::new(Class::Universal(UniversalTypes::OctetString), Payload::Primitive(vec![]));
    Tag::new(Class::Application(1), Payload::Constructed(vec![code, matched, message]))
}

fn wire(id: i32, op: Tag) -> Vec<u8> {
    encode(&build_envelope(id, op, None))
}

#[test]
fn envelope_layout() {
    let env = build_envelope(1, unbind_request(), None);
    assert_eq!(encode(&env), vec![0x30, 0x08, 0x02, 0x04, 0, 0, 0, 1, 0x42, 0x00]);
}

#[test]
fn envelope_round_trip_with_controls() {
    let controls = Tag::new(Class::ContextSpecific(0), Payload::Constructed(vec![]));
    let env = build_envelope(-7, bind_response(), Some(controls));
    let (id, op, c) = unwrap_envelope(env).unwrap();
    assert_eq!(id, -7);
    assert!(op == bind_response());
    assert!(c == Some(Tag::new(Class::ContextSpecific(0), Payload::Constructed(vec![]))));
}

#[test]
fn envelope_round_trip_without_controls() {
    let env = build_envelope(i32::MAX, done(), None);
    let (id, op, c) = unwrap_envelope(env).unwrap();
    assert_eq!(id, i32::MAX);
    assert!(op == done());
    assert!(c.is_none());
}

#[test]
fn envelope_accepts_short_message_id() {
    let id = Tag::new(Class::Universal(UniversalTypes::Integer), Payload::Primitive(vec![0x05]));
    let env = Tag::new(
        Class::Universal(UniversalTypes::Sequence),
        Payload::Constructed(vec![id, unbind_request()]),
    );
    let (id, _, _) = unwrap_envelope(env).unwrap();
    assert_eq!(id, 5);
}

#[test]
fn envelope_errors() {
    let prim = Tag::new(Class::Universal(UniversalTypes::Sequence), Payload::Primitive(vec![1]));
    assert_eq!(unwrap_envelope(prim).err(), Some(LDAPError::InvalidStructure));
    let one = Tag::new(
        Class::Universal(UniversalTypes::Sequence),
        Payload::Constructed(vec![1i32.into_ber_universal()]),
    );
    assert_eq!(unwrap_envelope(one).err(), Some(LDAPError::InvalidStructure));
    let four = Tag::new(
        Class::Universal(UniversalTypes::Sequence),
        Payload::Constructed(vec![
            1i32.into_ber_universal(),
            unbind_request(),
            unbind_request(),
            unbind_request(),
        ]),
    );
    assert_eq!(unwrap_envelope(four).err(), Some(LDAPError::InvalidStructure));
    let not_int = Tag::new(
        Class::Universal(UniversalTypes::Sequence),
        Payload::Constructed(vec![done(), unbind_request()]),
    );
    assert_eq!(unwrap_envelope(not_int).err(), Some(LDAPError::DecodingFailure));
    let too_wide = Tag::new(
        Class::Universal(UniversalTypes::Sequence),
        Payload::Constructed(vec![1i64.into_ber_universal(), unbind_request()]),
    );
    assert_eq!(unwrap_envelope(too_wide).err(), Some(LDAPError::DecodingFailure));
}

#[test]
fn integers_in_two_complement() {
    let t = 5i32.into_ber_universal();
    assert_eq!(encode(&t), vec![0x02, 0x04, 0, 0, 0, 5]);
    let mut t = (-1i32).into_ber_universal();
    assert_eq!(encode(&t), vec![0x02, 0x04, 0xFF, 0xFF, 0xFF, 0xFF]);
    assert_eq!(i32::from_tag(&mut t), Some(-1));
    let mut t = 0x0102_0304_0506_0708i64.into_ber_typed(Class::ContextSpecific(2));
    assert_eq!(encode(&t), vec![0x82, 0x08, 1, 2, 3, 4, 5, 6, 7, 8]);
    assert_eq!(i64::from_tag(&mut t), Some(0x0102_0304_0506_0708));
    let mut short = Tag::new(Class::Universal(UniversalTypes::Integer), Payload::Primitive(vec![0xFF, 0x7F]));
    assert_eq!(i32::from_tag(&mut short), Some(-129));
    let mut empty = Tag::new(Class::Universal(UniversalTypes::Integer), Payload::Primitive(vec![]));
    assert_eq!(i32::from_tag(&mut empty), None);
    let mut min = i64::MIN.into_ber_universal();
    assert_eq!(i64::from_tag(&mut min), Some(i64::MIN));
    let mut seq = vec![unbind_request()].into_ber_universal();
    assert_eq!(encode(&seq), vec![0x30, 0x02, 0x42, 0x00]);
    assert!(Vec::<Tag>::from_tag(&mut seq).is_none());
}

#[test]
fn bind_request_bytes() {
    let req = bind_request(b"cn=root".to_vec(), b"secret".to_vec());
    let mut expected = vec![0x60, 0x14, 0x02, 0x01, 0x03, 0x04, 0x07];
    expected.extend_from_slice(b"cn=root");
    expected.extend_from_slice(&[0x80, 0x06]);
    expected.extend_from_slice(b"secret");
    assert_eq!(encode(&req), expected);
}

#[test]
fn unbind_request_bytes() {
    assert_eq!(encode(&unbind_request()), vec![0x42, 0x00]);
}

#[test]
fn auth_methods() {
    assert_eq!(LDAPAuth::new(), LDAPAuth::SIMPLE);
    assert_eq!(LDAPAuth::SIMPLE.to_uint(), Some(0x80));
    assert_eq!(LDAPAuth::SASL.to_uint(), Some(0xa3));
    assert_eq!(LDAPAuth::NONE.to_uint(), Some(0));
}

#[test]
fn message_codec_reads_and_writes() {
    let mut codec = LDAPCodec::new();
    let mut out = Vec::new();
    codec.encode(LDAPMessage { id: 9, protocol_op: unbind_request(), controls: None }, &mut out);
    assert_eq!(out, vec![0x30, 0x08, 0x02, 0x04, 0, 0, 0, 9, 0x42, 0x00]);
    out.push(0x30);
    let (n, msg) = codec.decode(&out).unwrap().unwrap();
    assert_eq!(n, 10);
    assert_eq!(msg.id, 9);
    assert!(msg.protocol_op == unbind_request());
    assert!(codec.decode(&out[..5]).unwrap().is_none());
    assert_eq!(codec.decode(&[0x30, 0x80]).err(), Some(LDAPError::ASN1(ASN1Error::IndefiniteLength)));
    assert_eq!(codec.decode(&[0x04, 0x00]).err(), Some(LDAPError::InvalidStructure));
}

fn frame_of(codec: &mut LdapCodec, bytes: &[u8]) -> Frame {
    let (n, frame) = codec.decode(bytes).unwrap().unwrap();
    assert_eq!(n, bytes.len());
    frame
}

#[test]
fn demux_search_then_bind() {
    let mut codec = LdapCodec::new();
    let frames: Vec<Frame> = vec![
        frame_of(&mut codec, &wire(5, entry("o=one"))),
        frame_of(&mut codec, &wire(5, entry("o=two"))),
        frame_of(&mut codec, &wire(5, done())),
        frame_of(&mut codec, &wire(6, bind_response())),
    ];
    assert!(frames[0] == Frame::Message { id: 5, message: entry("o=one"), body: true });
    assert!(frames[1] == Frame::Body { id: 5, chunk: Some(entry("o=two")) });
    assert!(frames[2] == Frame::Body { id: 5, chunk: None });
    assert!(frames[3] == Frame::Message { id: 6, message: bind_response(), body: false });
}

#[test]
fn demux_interleaved_ids() {
    let mut codec = LdapCodec::new();
    let f1 = codec.demux(7, entry("a"));
    let f2 = codec.demux(8, bind_response());
    let f3 = codec.demux(7, entry("b"));
    let f4 = codec.demux(9, entry("c"));
    let f5 = codec.demux(7, entry("d"));
    let f6 = codec.demux(7, done());
    let f7 = codec.demux(9, done());
    let f8 = codec.demux(7, entry("e"));
    assert!(f1 == Frame::Message { id: 7, message: entry("a"), body: true });
    assert!(f2 == Frame::Message { id: 8, message: bind_response(), body: false });
    assert!(f3 == Frame::Body { id: 7, chunk: Some(entry("b")) });
    assert!(f4 == Frame::Message { id: 9, message: entry("c"), body: true });
    assert!(f5 == Frame::Body { id: 7, chunk: Some(entry("d")) });
    assert!(f6 == Frame::Body { id: 7, chunk: None });
    assert!(f7 == Frame::Body { id: 9, chunk: None });
    assert!(f8 == Frame::Message { id: 7, message: entry("e"), body: true });
}

#[test]
fn demux_done_without_entries_and_abandon() {
    let mut codec = LdapCodec::new();
    assert!(codec.demux(3, done()) == Frame::Body { id: 3, chunk: None });
    assert!(codec.demux(3, entry("x")) == Frame::Message { id: 3, message: entry("x"), body: true });
    codec.abandon(3);
    assert!(codec.demux(3, entry("y")) == Frame::Message { id: 3, message: entry("y"), body: true });
}

#[test]
fn demux_codec_encodes_requests() {
    let mut codec = LdapCodec::new();
    let mut out = Vec::new();
    codec.encode(Frame::Message { id: 2, message: unbind_request(), body: false }, &mut out);
    assert_eq!(out, vec![0x30, 0x08, 0x02, 0x04, 0, 0, 0, 2, 0x42, 0x00]);
    assert!(codec.decode(&[]).unwrap().is_none());
}

#[test]
fn decoders_refuse_wrong_envelope_classes() {
    let mut env = build_envelope(1, bind_response(), None);
    env.set_class(Class::Application(1));
    let bytes = encode(&env);
    let mut codec = LdapCodec::new();
    assert_eq!(codec.decode(&bytes).err(), Some(LDAPError::InvalidStructure));
    assert_eq!(LDAPCodec::new().decode(&bytes).err(), Some(LDAPError::InvalidStructure));

    let id = Tag::new(Class::Universal(UniversalTypes::OctetString), Payload::Primitive(vec![1]));
    let env = Tag::new(
        Class::Universal(UniversalTypes::Sequence),
        Payload::Constructed(vec![id, bind_response()]),
    );
    assert_eq!(codec.decode(&encode(&env)).err(), Some(LDAPError::InvalidStructure));

    let op = Tag::new(Class::Universal(UniversalTypes::OctetString), Payload::Primitive(vec![1]));
    let env = Tag::new(
        Class::Universal(UniversalTypes::Sequence),
        Payload::Constructed(vec![1i32.into_ber_universal(), op]),
    );
    assert_eq!(codec.decode(&encode(&env)).err(), Some(LDAPError::InvalidStructure));

    // the refused messages opened no stream
    let f = frame_of(&mut codec, &wire(1, entry("z")));
    assert!(f == Frame::Message { id: 1, message: entry("z"), body: true });
}

#[test]
fn decode_stream_of_three_entries() {
    let mut codec = LdapCodec::new();
    let names = ["o=a", "o=b", "o=c"];
    for (i, name) in names.iter().enumerate() {
        let f = frame_of(&mut codec, &wire(11, entry(name)));
        if i == 0 {
            assert!(f == Frame::Message { id: 11, message: entry(name), body: true });
        } else {
            assert!(f == Frame::Body { id: 11, chunk: Some(entry(name)) });
        }
    }
    assert!(frame_of(&mut codec, &wire(11, done())) == Frame::Body { id: 11, chunk: None });
    assert!(
        frame_of(&mut codec, &wire(11, entry("o=d")))
            == Frame::Message { id: 11, message: entry("o=d"), body: true }
    );
}
