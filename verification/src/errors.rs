//! Error taxonomy of the token core.
//!
//! Structural problems are reported through these variants; semantic
//! invalidity of a well-formed token is a boolean result, never an error.

use vstd::prelude::*;

verus! {

/// Failure classes of the token core.
#[derive(Debug, Clone, Copy, PartialEq, Eq, Structural)]
pub enum Error {
    /// PEM framing invalid, wrong curve, or unsupported key encoding.
    KeyParse,
    /// Token does not have three dot-separated segments, or a segment is
    /// not valid base64url / canonical JSON.
    MalformedToken,
    /// Internal cryptographic failure during signature computation.
    Signing,
}

impl Error {
    /// Short human-readable description of the failure class.
    pub fn describe(&self) -> (r: &'static str)
        ensures
            (*self is KeyParse) ==> r@ == "invalid key encoding"@,
            (*self is MalformedToken) ==> r@ == "malformed token"@,
            (*self is Signing) ==> r@ == "signing failure"@,
    {
        match self {
            Error::KeyParse => "invalid key encoding",
            Error::MalformedToken => "malformed token",
            Error::Signing => "signing failure",
        }
    }
}

} // verus!

