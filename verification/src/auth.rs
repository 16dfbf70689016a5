//! Authentication value types: login keys and user tokens, with digesting
//! and constant-time comparison at their core.

use vstd::prelude::*;

verus! {

use crate::hashing::{sha256, sha256_of, hex_of, hex_encode, ct_bytes_eq, hex_to_32_bytes,
    is_hex_string, hex_decoded};

/// A 32-byte login key; compared in constant time.
#[derive(Clone, Copy, Debug)]
pub struct LoginKey(pub [u8; 32]);

impl LoginKey {
    /// Wraps raw key bytes.
    pub fn from_bytes(bytes: [u8; 32]) -> (r: Self)
        ensures
            r.0@ == bytes@,
    {
        LoginKey(bytes)
    }

    /// The SHA-256 digest of this key, as a new key.
    pub fn hash(&self) -> (r: LoginKey)
        ensures
            r.0@ == sha256_of(self.0@),
    {
        LoginKey::from_bytes(sha256(self.0.as_slice()))
    }

    /// This key as lowercase hex text.
    pub fn to_hex(&self) -> (r: String)
        ensures
            r@ == hex_of(self.0@),
    {
        hex_encode(self.0.as_slice())
    }

    /// Parses a key from 64 hex digits; any other text is rejected.
    pub fn from_hex(s: &str) -> (r: Option<LoginKey>)
        ensures
            r is Some <==> (is_hex_string(s@) && s@.len() == 64),
            r is Some ==> (r->0).0@ == hex_decoded(s@),
    {
        match hex_to_32_bytes(s) {
            Some(bytes) => Some(LoginKey::from_bytes(bytes)),
            None => None,
        }
    }
}

impl PartialEq for LoginKey {
    fn eq(&self, other: &Self) -> (r: bool) {
        ct_bytes_eq(&self.0, &other.0)
    }
}

impl vstd::std_specs::cmp::PartialEqSpecImpl for LoginKey {
    open spec fn obeys_eq_spec() -> bool {
        true
    }

    open spec fn eq_spec(&self, other: &LoginKey) -> bool {
        self.0@ == other.0@
    }
}

/// A 32-byte bearer token identifying an authenticated user.
#[derive(Clone, Copy, Debug)]
pub struct UserToken(pub [u8; 32]);

impl UserToken {
    /// Wraps raw token bytes.
    pub fn from_bytes(bytes: [u8; 32]) -> (r: Self)
        ensures
            r.0@ == bytes@,
    {
        UserToken(bytes)
    }

    /// This token as lowercase hex text.
    pub fn to_hex(&self) -> (r: String)
        ensures
            r@ == hex_of(self.0@),
    {
        hex_encode(self.0.as_slice())
    }

    /// Parses a token from 64 hex digits, as it arrives in a bearer
    /// header; any other text is rejected.
    pub fn from_hex(s: &str) -> (r: Option<UserToken>)
        ensures
            r is Some <==> (is_hex_string(s@) && s@.len() == 64),
            r is Some ==> (r->0).0@ == hex_decoded(s@),
    {
        match hex_to_32_bytes(s) {
            Some(bytes) => Some(UserToken::from_bytes(bytes)),
            None => None,
        }
    }
}

/// A user whose token was accepted, together with their standing.
pub struct AuthenticatedUser {
    pub id: i64,
    pub token: UserToken,
    pub is_admin: bool,
}

} // verus!
