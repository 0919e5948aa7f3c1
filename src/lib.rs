//! BER tag-length-value codec for LDAP, with the LDAP message envelope and a
//! demultiplexer for streamed search results.
pub mod auth;
pub mod decoder;
pub mod demux;
pub mod encoder;
pub mod envelope;
pub mod error;
pub mod laws;
pub mod requests;
pub mod tag;
pub mod types;
pub mod wire;

pub use auth::LDAPAuth;
pub use decoder::decode;
pub use demux::{Frame, LdapCodec};
pub use encoder::{encode, Encoder};
pub use envelope::{build_envelope, unwrap_envelope, LDAPCodec, LDAPMessage};
pub use error::{ASN1Error, LDAPError};
pub use requests::{bind_request, unbind_request};
pub use tag::{Class, ClassNumber, Payload, Structure, Tag, UniversalTypes};
pub use types::ASNType;
