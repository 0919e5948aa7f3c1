//! Authentication methods of a bind request.
use vstd::prelude::*;

verus! {

/// The authentication methods, named as in the LDAP C API.
#[allow(non_camel_case_types)]
#[derive(Debug, Clone, Copy, PartialEq, Eq, Structural)]
pub enum LDAPAuth {
    NONE,
    SIMPLE,
    SASL,
    KRBv4,
    KRBV41,
    KRBV42,
}

/// The tag octet that announces the method's credentials in a bind request.
pub open spec fn auth_code(a: LDAPAuth) -> nat {
    match a {
        LDAPAuth::NONE => 0x00,
        LDAPAuth::SIMPLE => 0x80,
        LDAPAuth::SASL => 0xa3,
        LDAPAuth::KRBv4 => 0xff,
        LDAPAuth::KRBV41 => 0x81,
        LDAPAuth::KRBV42 => 0x82,
    }
}

impl LDAPAuth {
    /// Simple authentication, the default.
    pub fn new() -> (r: LDAPAuth)
        ensures
            r == LDAPAuth::SIMPLE,
    {
        LDAPAuth::SIMPLE
    }

    /// The method's tag octet.
    pub fn to_uint(&self) -> (r: Option<usize>)
        ensures
            r == Some(auth_code(*self) as usize),
    {
        match self {
            LDAPAuth::NONE => Some(0x00),
            LDAPAuth::SIMPLE => Some(0x80),
            LDAPAuth::SASL => Some(0xa3),
            LDAPAuth::KRBv4 => Some(0xff),
            LDAPAuth::KRBV41 => Some(0x81),
            LDAPAuth::KRBV42 => Some(0x82),
        }
    }
}

} // verus!
