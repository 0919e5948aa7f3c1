use ldap::{decode, encode, ASN1Error, Class, Encoder, Payload, Tag, UniversalTypes};

fn hello_tag(class: Class) -> Tag {
    Tag::new(class, Payload::Primitive("Hello World!".to_string().into_bytes()))
}

#[test]
fn read_simple_tag() {
    let bytestream = vec![2, 2, 255, 127];
    let (_, tag) = Tag::read(&bytestream).unwrap().unwrap();
    assert!(tag == Tag {
        class: Class::Universal(UniversalTypes::Integer),
        payload: Payload::Primitive(vec![255, 127]),
        length: 2,
    });
}

#[test]
fn write_simple_tag() {
    let payload = vec![255, 127];
    let tag = Tag {
        class: Class::Universal(UniversalTypes::Integer),
        payload: Payload::Primitive(payload.clone()),
        length: 2,
    };
    let mut buf = Vec::<u8>::new();
    tag.write(&mut buf);
    assert!(buf == vec![0x2, 0x2, 0xFF, 0x7F]);
}

#[test]
fn check_primitive_tag_length() {
    let content = "Hello World!".to_string();
    let tag = Tag {
        class: Class::Universal(UniversalTypes::Utf8String),
        length: content.len() as u64,
        payload: Payload::Primitive(content.into_bytes()),
    };
    let mut buf = Vec::<u8>::new();
    tag.write(&mut buf);
    assert!(tag.len() == 14);
}

#[test]
fn read_constructed_tag() {
    let bytestream = vec![48, 14, 12, 12, 72, 101, 108, 108, 111, 32, 87, 111, 114, 108, 100, 33];
    let (_, tag) = Tag::read(&bytestream).unwrap().unwrap();
    assert!(tag == Tag {
        class: Class::Universal(UniversalTypes::Sequence),
        length: 14u64,
        payload: Payload::Constructed(vec![Tag {
            class: Class::Universal(UniversalTypes::Utf8String),
            length: 12u64,
            payload: Payload::Primitive("Hello World!".to_string().into_bytes()),
        }]),
    })
}

#[test]
fn write_constructed_tag() {
    let content = "Hello World!".to_string();
    let child = Tag {
        class: Class::Universal(UniversalTypes::Utf8String),
        length: content.len() as u64,
        payload: Payload::Primitive(content.into_bytes()),
    };
    let parent = Tag {
        class: Class::Universal(UniversalTypes::Sequence),
        length: child.len() as u64,
        payload: Payload::Constructed(vec![child]),
    };
    let mut buf = Vec::<u8>::new();
    parent.write(&mut buf);
    assert!(buf == vec![48, 14, 12, 12, 72, 101, 108, 108, 111, 32, 87, 111, 114, 108, 100, 33])
}

#[test]
fn check_constructed_tag_length() {
    let content = "Hello World!".to_string();
    let child = Tag {
        class: Class::Universal(UniversalTypes::Utf8String),
        length: content.len() as u64,
        payload: Payload::Primitive(content.into_bytes()),
    };
    let parent = Tag {
        class: Class::Universal(UniversalTypes::Sequence),
        length: child.len() as u64,
        payload: Payload::Constructed(vec![child]),
    };
    assert!(parent.len() == 16);
}

#[test]
fn decode_primitive_tag() {
    let bytestream = [2, 2, 255, 127];
    let (size, tag) = decode(&bytestream).unwrap().unwrap();
    assert!(tag == Tag {
        class: Class::Universal(UniversalTypes::Integer),
        length: 2,
        payload: Payload::Primitive(vec![255, 127]),
    });
    assert_eq!(size, 4);
}

#[test]
fn decode_constructed_tag() {
    let bytestream = [48, 14, 12, 12, 72, 101, 108, 108, 111, 32, 87, 111, 114, 108, 100, 33];
    let (size, tag) = decode(&bytestream).unwrap().unwrap();
    assert!(tag == Tag {
        class: Class::Universal(UniversalTypes::Sequence),
        length: 14,
        payload: Payload::Constructed(vec![Tag {
            class: Class::Universal(UniversalTypes::Utf8String),
            length: 12,
            payload: Payload::Primitive("Hello World!".to_string().into_bytes()),
        }]),
    });
    assert_eq!(size, 16);
}

#[test]
fn encode_simple_tag() {
    let payload: Vec<u8> = 1616i16.to_be_bytes().to_vec();
    let class = Class::Universal(UniversalTypes::Integer);
    let tag = Tag::new(class, Payload::Primitive(payload));
    let buf = encode(&tag);
    assert!(buf == vec![0x2, 0x2, 0x06, 0x50]);
}

#[test]
fn encode_constructed_tag() {
    let child = hello_tag(Class::ContextSpecific(0));
    let parent = Tag::new(Class::Universal(UniversalTypes::Sequence), Payload::Constructed(vec![child]));
    let buf = encode(&parent);
    assert!(buf == vec![48, 14, 128, 12, 72, 101, 108, 108, 111, 32, 87, 111, 114, 108, 100, 33])
}

#[test]
fn encode_extended_type_tags() {
    let tag = Tag::new(
        Class::ContextSpecific(1000),
        Payload::Primitive("second".to_string().into_bytes()),
    );
    let buf = encode(&tag);
    assert!(buf == vec![0x9F, 0x87, 0x68, 0x06, 0x73, 0x65, 0x63, 0x6F, 0x6E, 0x64]);
}

fn long_sequence() -> Tag {
    let name = Tag::new(
        Class::ContextSpecific(0),
        Payload::Primitive("JustALongTag".to_string().into_bytes()),
    );
    let value = Tag::new(
        Class::ContextSpecific(1),
        Payload::Primitive("JustALongTag".repeat(20).into_bytes()),
    );
    Tag::new(Class::Universal(UniversalTypes::Sequence), Payload::Constructed(vec![name, value]))
}

fn long_sequence_bytes() -> Vec<u8> {
    vec![0x30, 0x82, 0x1, 0x1, 0x80, 0xc, 0x4a, 0x75, 0x73, 0x74, 0x41, 0x4c, 0x6f, 0x6e, 0x67, 0x54, 0x61, 0x67, 0x81, 0x81, 0xf0, 0x4a, 0x75, 0x73, 0x74, 0x41, 0x4c, 0x6f, 0x6e, 0x67, 0x54, 0x61, 0x67, 0x4a, 0x75, 0x73, 0x74, 0x41, 0x4c, 0x6f, 0x6e, 0x67, 0x54, 0x61, 0x67, 0x4a, 0x75, 0x73, 0x74, 0x41, 0x4c, 0x6f, 0x6e, 0x67, 0x54, 0x61, 0x67, 0x4a, 0x75, 0x73, 0x74, 0x41, 0x4c, 0x6f, 0x6e, 0x67, 0x54, 0x61, 0x67, 0x4a, 0x75, 0x73, 0x74, 0x41, 0x4c, 0x6f, 0x6e, 0x67, 0x54, 0x61, 0x67, 0x4a, 0x75, 0x73, 0x74, 0x41, 0x4c, 0x6f, 0x6e, 0x67, 0x54, 0x61, 0x67, 0x4a, 0x75, 0x73, 0x74, 0x41, 0x4c, 0x6f, 0x6e, 0x67, 0x54, 0x61, 0x67, 0x4a, 0x75, 0x73, 0x74, 0x41, 0x4c, 0x6f, 0x6e, 0x67, 0x54, 0x61, 0x67, 0x4a, 0x75, 0x73, 0x74, 0x41, 0x4c, 0x6f, 0x6e, 0x67, 0x54, 0x61, 0x67, 0x4a, 0x75, 0x73, 0x74, 0x41, 0x4c, 0x6f, 0x6e, 0x67, 0x54, 0x61, 0x67, 0x4a, 0x75, 0x73, 0x74, 0x41, 0x4c, 0x6f, 0x6e, 0x67, 0x54, 0x61, 0x67, 0x4a, 0x75, 0x73, 0x74, 0x41, 0x4c, 0x6f, 0x6e, 0x67, 0x54, 0x61, 0x67, 0x4a, 0x75, 0x73, 0x74, 0x41, 0x4c, 0x6f, 0x6e, 0x67, 0x54, 0x61, 0x67, 0x4a, 0x75, 0x73, 0x74, 0x41, 0x4c, 0x6f, 0x6e, 0x67, 0x54, 0x61, 0x67, 0x4a, 0x75, 0x73, 0x74, 0x41, 0x4c, 0x6f, 0x6e, 0x67, 0x54, 0x61, 0x67, 0x4a, 0x75, 0x73, 0x74, 0x41, 0x4c, 0x6f, 0x6e, 0x67, 0x54, 0x61, 0x67, 0x4a, 0x75, 0x73, 0x74, 0x41, 0x4c, 0x6f, 0x6e, 0x67, 0x54, 0x61, 0x67, 0x4a, 0x75, 0x73, 0x74, 0x41, 0x4c, 0x6f, 0x6e, 0x67, 0x54, 0x61, 0x67, 0x4a, 0x75, 0x73, 0x74, 0x41, 0x4c, 0x6f, 0x6e, 0x67, 0x54, 0x61, 0x67, 0x4a, 0x75, 0x73, 0x74, 0x41, 0x4c, 0x6f, 0x6e, 0x67, 0x54, 0x61, 0x67]
}

#[test]
fn encode_long_length_tags() {
    let buf = encode(&long_sequence());
    assert!(buf == long_sequence_bytes());
}

#[test]
fn decode_long_length_tags() {
    let (size, tag) = decode(&long_sequence_bytes()).unwrap().unwrap();
    assert_eq!(size, 261);
    assert!(tag == long_sequence());
    assert_eq!(tag.length, 257);
}

#[test]
fn decode_extended_type_tags() {
    let bytestream = [0x9F, 0x87, 0x68, 0x06, 0x73, 0x65, 0x63, 0x6F, 0x6E, 0x64];
    let (size, tag) = decode(&bytestream).unwrap().unwrap();
    assert_eq!(size, 10);
    assert!(tag == Tag {
        class: Class::ContextSpecific(1000),
        length: 6,
        payload: Payload::Primitive("second".to_string().into_bytes()),
    });
}

#[test]
fn round_trip_nested_tags() {
    let inner = Tag::new(
        Class::Private(200000),
        Payload::Constructed(vec![
            hello_tag(Class::Application(31)),
            Tag::new(Class::Universal(UniversalTypes::Null), Payload::Primitive(vec![])),
        ]),
    );
    let tag = Tag::new(
        Class::Application(3),
        Payload::Constructed(vec![inner, long_sequence(), hello_tag(Class::ContextSpecific(30))]),
    );
    let mut bytes = encode(&tag);
    let n = bytes.len();
    assert_eq!(n, tag.len());
    bytes.extend_from_slice(&[0xAA, 0xBB]);
    let (size, back) = decode(&bytes).unwrap().unwrap();
    assert_eq!(size, n);
    assert!(back == tag);
}

#[test]
fn round_trip_u64_max_tag_number() {
    let tag = Tag::new(Class::Application(u64::MAX), Payload::Primitive(vec![1, 2, 3]));
    let bytes = encode(&tag);
    assert_eq!(bytes[0], 0x5F);
    assert_eq!(bytes.len(), 1 + 10 + 1 + 3);
    let (_, back) = decode(&bytes).unwrap().unwrap();
    assert!(back == tag);
}

#[test]
fn short_length_below_128() {
    let tag = Tag::new(Class::Universal(UniversalTypes::OctetString), Payload::Primitive(vec![7; 127]));
    let bytes = encode(&tag);
    assert_eq!(&bytes[..2], &[0x04, 0x7F]);
}

#[test]
fn long_length_minimal_octets() {
    let tag = Tag::new(Class::Universal(UniversalTypes::OctetString), Payload::Primitive(vec![7; 128]));
    assert_eq!(&encode(&tag)[..3], &[0x04, 0x81, 0x80]);
    let tag = Tag::new(Class::Universal(UniversalTypes::OctetString), Payload::Primitive(vec![7; 255]));
    assert_eq!(&encode(&tag)[..3], &[0x04, 0x81, 0xFF]);
    let tag = Tag::new(Class::Universal(UniversalTypes::OctetString), Payload::Primitive(vec![7; 256]));
    assert_eq!(&encode(&tag)[..4], &[0x04, 0x82, 0x01, 0x00]);
    let tag = Tag::new(Class::Universal(UniversalTypes::OctetString), Payload::Primitive(vec![7; 65536]));
    assert_eq!(&encode(&tag)[..5], &[0x04, 0x83, 0x01, 0x00, 0x00]);
}

#[test]
fn tag_numbers_up_to_30_take_one_octet() {
    let tag = hello_tag(Class::ContextSpecific(30));
    assert_eq!(encode(&tag)[..2], [0x9E, 0x0C]);
    let tag = hello_tag(Class::ContextSpecific(31));
    assert_eq!(encode(&tag)[..3], [0x9F, 0x1F, 0x0C]);
    let tag = hello_tag(Class::Application(128));
    assert_eq!(encode(&tag)[..4], [0x5F, 0x81, 0x00, 0x0C]);
}

#[test]
fn indefinite_length_is_rejected() {
    assert_eq!(decode(&[0x30, 0x80, 0x02, 0x01, 0x05, 0x00, 0x00]), Err(ASN1Error::IndefiniteLength));
    assert_eq!(decode(&[0x04, 0x80]), Err(ASN1Error::IndefiniteLength));
}

#[test]
fn read_length_indefinite_alone() {
    assert_eq!(Tag::read_lenght(&[0x80]), Err(ASN1Error::IndefiniteLength));
}

#[test]
fn read_length_forms() {
    assert_eq!(Tag::read_lenght(&[0x05]), Ok(Some((1, 5))));
    assert_eq!(Tag::read_lenght(&[0x82, 0x01, 0x01, 0x99]), Ok(Some((3, 257))));
    assert_eq!(Tag::read_lenght(&[0x84, 0x00, 0x00, 0x00, 0x0C]), Ok(Some((5, 12))));
    assert_eq!(Tag::read_lenght(&[0x82, 0x01]), Ok(None));
    assert_eq!(Tag::read_lenght(&[]), Ok(None));
    assert_eq!(Tag::read_lenght(&[0x89, 1, 2, 3, 4, 5, 6, 7, 8, 9]), Err(ASN1Error::InvalidLengthEncoding));
}

#[test]
fn incomplete_input_asks_for_more() {
    let bytes = encode(&long_sequence());
    for cut in 0..bytes.len() {
        assert_eq!(decode(&bytes[..cut]), Ok(None));
    }
    assert_eq!(decode(&[0x9F, 0x87]), Ok(None));
}

#[test]
fn long_form_lengths_are_accepted() {
    let bytes = [0x30, 0x84, 0, 0, 0, 0x07, 0x04, 0x81, 0x02, 0x61, 0x62, 0x01, 0x00];
    let (size, tag) = decode(&bytes).unwrap().unwrap();
    assert_eq!(size, 13);
    assert_eq!(tag.length, 7);
    let child = Tag {
        class: Class::Universal(UniversalTypes::OctetString),
        length: 2,
        payload: Payload::Primitive(vec![0x61, 0x62]),
    };
    let flag = Tag {
        class: Class::Universal(UniversalTypes::Boolean),
        length: 0,
        payload: Payload::Primitive(vec![]),
    };
    assert!(tag.payload == Payload::Constructed(vec![child, flag]));
}

#[test]
fn unknown_universal_type_is_invalid() {
    assert_eq!(decode(&[0x0E, 0x00]), Err(ASN1Error::InvalidASN1));
    assert_eq!(decode(&[0x1F, 0x20, 0x00]), Err(ASN1Error::InvalidASN1));
}

#[test]
fn child_overrunning_parent_is_invalid() {
    assert_eq!(decode(&[0x30, 0x03, 0x04, 0x05, 0x61, 0x62, 0x63, 0x64, 0x65]), Err(ASN1Error::InvalidASN1));
    assert_eq!(decode(&[0x30, 0x01, 0x04]), Err(ASN1Error::InvalidASN1));
}

#[test]
fn extended_tag_too_long() {
    let mut bytes = vec![0x5F];
    bytes.extend_from_slice(&[0xFF; 10]);
    bytes.push(0x7F);
    bytes.push(0x00);
    assert_eq!(decode(&bytes), Err(ASN1Error::ExtendedTagTooLong));
}

#[test]
fn empty_constructed_tag() {
    let tag = Tag::new(Class::Universal(UniversalTypes::SetOf), Payload::Constructed(vec![]));
    let bytes = encode(&tag);
    assert_eq!(bytes, vec![0x31, 0x00]);
    let (_, back) = decode(&bytes).unwrap().unwrap();
    assert!(back == tag);
}

#[test]
fn encoder_collects_and_flushes() {
    let mut enc = Encoder::from_writer_raw(vec![0xEE]);
    enc.encode(Tag::new(Class::Universal(UniversalTypes::Integer), Payload::Primitive(vec![0x06, 0x50])));
    enc.encode(Tag::new(Class::Universal(UniversalTypes::Null), Payload::Primitive(vec![])));
    assert_eq!(enc.flush(), vec![0xEE, 0x02, 0x02, 0x06, 0x50, 0x05, 0x00]);
    assert_eq!(enc.flush(), Vec::<u8>::new());
}

#[test]
fn payload_and_tag_accessors() {
    let mut tag = long_sequence();
    assert_eq!(tag.len(), 261);
    assert!(tag.is_class(Class::Universal(UniversalTypes::Sequence)));
    assert!(!tag.is_class(Class::Universal(UniversalTypes::SetOf)));
    tag.set_class(Class::Application(1000));
    assert_eq!(tag.class, Class::Application(1000));
    assert_eq!(tag.length, 257);
    assert_eq!(tag.len(), 263);
    let payload = tag.into_payload();
    assert_eq!(payload.len(), 257);
    let children = payload.into_inner_constructed().unwrap();
    assert_eq!(children.len(), 2);
    let name = children.into_iter().next().unwrap().into_payload();
    assert_eq!(name.len(), 12);
    assert!(Payload::Primitive(vec![1]).into_inner_constructed().is_none());
    assert_eq!(name.into_inner_primitive(), Some("JustALongTag".to_string().into_bytes()));
}

#[test]
fn universal_types_and_classes() {
    assert_eq!(UniversalTypes::from_u8(16), Ok(UniversalTypes::Sequence));
    assert_eq!(UniversalTypes::from_u8(17), Ok(UniversalTypes::SetOf));
    assert_eq!(UniversalTypes::from_u8(14), Err(ASN1Error::InvalidASN1));
    assert_eq!(UniversalTypes::from_u8(31), Err(ASN1Error::InvalidASN1));
    assert_eq!(UniversalTypes::BmpString.number(), 30);
    assert_eq!(Class::construct(0, 2), Ok(Class::Universal(UniversalTypes::Integer)));
    assert_eq!(Class::construct(0, 258), Err(ASN1Error::InvalidASN1));
    assert_eq!(Class::construct(2, 1000), Ok(Class::ContextSpecific(1000)));
    assert_eq!(Class::construct(4, 1), Err(ASN1Error::InvalidASN1));
    assert_eq!(ldap::ClassNumber::from_u8(3), ldap::ClassNumber::Private);
    assert_eq!(ldap::Structure::from_u8(1), ldap::Structure::Constructed);
}

#[test]
fn nested_indefinite_length_is_rejected() {
    assert_eq!(decode(&[0x30, 0x04, 0x30, 0x80, 0x00, 0x00]), Err(ASN1Error::IndefiniteLength));
    assert_eq!(
        decode(&[0x30, 0x08, 0x04, 0x01, 0x61, 0x30, 0x03, 0x04, 0x80, 0x00]),
        Err(ASN1Error::IndefiniteLength)
    );
}
