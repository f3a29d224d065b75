//! Issuing and validation of short-lived signed compact tokens:
//! `header.payload.signature`, each segment base64url-encoded without
//! padding, signed with ECDSA over curve P-256 and SHA-256 (`ES256`).
//!
//! The token format — canonical JSON for header and claims, the base64url
//! codec, segment assembly and the staged validation pipeline — is
//! verified down to the bytes; `verify_outcome` in [`token`] is the one
//! definition of what verification returns.  The cryptographic calls
//! stand behind small trusted wrappers in [`keys`].

pub mod b64;
pub mod cli;
pub mod errors;
pub mod json;
pub mod keys;
pub mod token;
