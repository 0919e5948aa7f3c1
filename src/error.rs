use vstd::prelude::*;

verus! {

/// Errors of the BER codec.
#[derive(Debug, Clone, Copy, PartialEq, Eq, Structural)]
pub enum ASN1Error {
    /// The length octet `0x80` (indefinite length), which LDAP forbids.
    IndefiniteLength,
    /// Long-form length octets that cannot be read (more than eight of them).
    InvalidLengthEncoding,
    /// A structure that is not valid BER: an unknown universal type, a
    /// universal tag in extended form, a child that overruns its parent.
    InvalidASN1,
    /// An extended tag number that does not fit in 64 bits.
    ExtendedTagTooLong,
}

/// Errors of the LDAP message layer.
#[derive(Debug, Clone, Copy, PartialEq, Eq, Structural)]
pub enum LDAPError {
    /// The bytes are not a BER element.
    ASN1(ASN1Error),
    /// The envelope does not have the shape of an LDAP message.
    InvalidStructure,
    /// A field of the envelope does not decode to what its position requires.
    DecodingFailure,
}

} // verus!
