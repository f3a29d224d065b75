//! Key material and the signing / verification entry points.
//!
//! The cryptographic calls — PEM parsing, ECDSA over P-256 with SHA-256 —
//! are made by small trusted wrappers around `jwt_simple` and `p256`;
//! everything around them (token encoding, the validation pipeline) is
//! verified against `verify_outcome`.

use vstd::prelude::*;

use jwt_simple::algorithms::ECDSAP256KeyPairLike;
use jwt_simple::algorithms::ECDSAP256PublicKeyLike;
use jwt_simple::algorithms::ES256KeyPair;
use jwt_simple::algorithms::ES256PublicKey;
use p256::ecdsa::signature::Signer;
use p256::ecdsa::signature::Verifier;

use vstd::utf8::encode_utf8;

use crate::b64::b64_encode;
use crate::b64::b64_decode;
use crate::errors::Error;
use crate::json::claims_to_json;
use crate::json::header_to_json;
use crate::json::parse_claims;
use crate::json::parse_header;
use crate::json::es256_bytes;
use crate::token::bytes_eq;
use crate::token::is_split3;
use crate::token::join_dot;
use crate::token::lemma_split3_unique;
use crate::token::lemma_token_ascii;
use crate::token::sat_add;
use crate::token::signing_input;
use crate::token::spec_tol;
use crate::token::split3;
use crate::token::token_bytes;
use crate::token::verify_outcome;

verus! {

#[verifier::external_type_specification]
#[verifier::external_body]
pub struct ExES256KeyPair(ES256KeyPair);

#[verifier::external_type_specification]
#[verifier::external_body]
pub struct ExES256PublicKey(ES256PublicKey);

/// Whether `jwt_simple`'s `ES256KeyPair::from_pem` accepts this text; a
/// function of the text alone.
pub uninterp spec fn pem_keypair_ok(pem: Seq<char>) -> bool;

/// Whether `jwt_simple`'s `ES256PublicKey::from_pem` accepts this text; a
/// function of the text alone.
pub uninterp spec fn pem_public_ok(pem: Seq<char>) -> bool;

/// Whether ECDSA P-256 / SHA-256 verification accepts `sig` over `msg`
/// under the public key parsed from `pem`; a function of these three
/// alone.
pub uninterp spec fn sig_valid(pem: Seq<char>, msg: Seq<u8>, sig: Seq<u8>) -> bool;

/// Whether ECDSA P-256 / SHA-256 signing (deterministic, RFC 6979)
/// succeeds for the key parsed from `pem` over `msg`; a function of the
/// two alone.
pub uninterp spec fn ecdsa_sign_ok(pem: Seq<char>, msg: Seq<u8>) -> bool;

/// Whether SPKI serialization of the public counterpart of the key
/// parsed from `priv_pem` succeeds; a function of the text alone.
pub uninterp spec fn counterpart_pem_ok(priv_pem: Seq<char>) -> bool;

/// Whether `pub_pem` is a PEM text of the public counterpart of the
/// private key parsed from `priv_pem` (the serializer's line-ending
/// convention may vary, so this is a relation, not one text); a function
/// of the two texts alone.
pub uninterp spec fn keypair_of(priv_pem: Seq<char>, pub_pem: Seq<char>) -> bool;

/// Relies on jwt_simple's ES256KeyPair::from_pem: parses PEM-framed
/// PKCS#8 P-256 private-key text; acceptance depends on the text alone.
#[verifier::external_body]
fn parse_keypair(pem: &str) -> (r: Option<ES256KeyPair>)
    ensures
        r is Some <==> pem_keypair_ok(pem@),
{
    ES256KeyPair::from_pem(pem).ok()
}

/// Relies on jwt_simple's ES256PublicKey::from_pem: parses PEM-framed
/// SPKI P-256 public-key text; acceptance depends on the text alone.
#[verifier::external_body]
fn parse_public(pem: &str) -> (r: Option<ES256PublicKey>)
    ensures
        r is Some <==> pem_public_ok(pem@),
{
    ES256PublicKey::from_pem(pem).ok()
}

/// Relies on p256's ECDSA signing (deterministic, RFC 6979) over SHA-256:
/// `Signature::to_bytes` is r and s, 32 big-endian bytes each, and a
/// signature `try_sign` produces verifies (ecdsa's `Verifier::verify`,
/// the same hash) under the key's public counterpart — hence under any
/// PEM text of that counterpart, since SPKI `to_pem`/`from_pem` round-trip
/// the point.
#[verifier::external_body]
fn ecdsa_sign_raw(key: &SigningKey, msg: &[u8]) -> (r: Option<Vec<u8>>)
    ensures
        r is Some <==> ecdsa_sign_ok(key.pem@, msg@),
        r matches Some(sig) ==> sig@.len() == 64 && (forall|pub_pem: Seq<char>|
            keypair_of(key.pem@, pub_pem) ==> sig_valid(pub_pem, msg@, sig@)),
{
    let sk: &p256::ecdsa::SigningKey = key.key.key_pair().as_ref();
    let signed: Result<p256::ecdsa::Signature, p256::ecdsa::Error> = sk.try_sign(msg);
    match signed {
        Ok(sig) => Some(sig.to_bytes().to_vec()),
        Err(_) => None,
    }
}

/// Relies on jwt_simple's ES256KeyPair::public_key and
/// ES256PublicKey::to_pem: the SPKI PEM text of the public counterpart of
/// the stored private key, a deterministic function of it.
#[verifier::external_body]
fn public_pem_of(key: &SigningKey) -> (r: Option<String>)
    ensures
        r is Some <==> counterpart_pem_ok(key.pem@),
        r matches Some(p) ==> keypair_of(key.pem@, p@),
{
    key.key.public_key().to_pem().ok()
}

/// Relies on p256's ECDSA verification over SHA-256: the result depends
/// only on the stored key (parsed from the remembered PEM text), the
/// message and the signature; `Signature::from_slice` rejects anything
/// but 64 bytes with r and s in range.
#[verifier::external_body]
fn ecdsa_verify_raw(vk: &VerifyingKey, msg: &[u8], sig: &[u8]) -> (r: bool)
    ensures
        r == sig_valid(vk.pem@, msg@, sig@),
{
    match p256::ecdsa::Signature::from_slice(sig) {
        Ok(s) => {
            let pk: &p256::ecdsa::VerifyingKey = vk.key.public_key().as_ref();
            pk.verify(msg, &s).is_ok()
        },
        Err(_) => false,
    }
}

/// Relies on std::time::SystemTime::now for the seconds since the Unix
/// epoch; nothing is promised of the clock's value.
#[verifier::external_body]
fn now_unix() -> u64 {
    match std::time::SystemTime::now().duration_since(std::time::UNIX_EPOCH) {
        Ok(d) => d.as_secs(),
        Err(_) => 0,
    }
}

/// Relies on String::from_utf8: ASCII bytes are valid UTF-8, and decode
/// to the characters with the same code points.
#[verifier::external_body]
fn ascii_string(b: Vec<u8>) -> (r: String)
    requires
        forall|i: int| 0 <= i < b@.len() ==> b@[i] < 128,
    ensures
        r@.len() == b@.len(),
        forall|i: int| 0 <= i < b@.len() ==> r@[i] == b@[i] as char,
        encode_utf8(r@) == b@,
{
    match String::from_utf8(b) {
        Ok(s) => s,
        Err(_) => String::new(),
    }
}

/// An immutable ES256 signing key bound to a key identifier.
pub struct SigningKey {
    key: ES256KeyPair,
    key_id: String,
    pem: Ghost<Seq<char>>,
}

/// An immutable ES256 verifying key bound to a key identifier.
pub struct VerifyingKey {
    key: ES256PublicKey,
    key_id: String,
    pem: Ghost<Seq<char>>,
}

impl SigningKey {
    /// The key identifier this key was created with.
    pub closed spec fn spec_key_id(&self) -> Seq<char> {
        self.key_id@
    }

    /// The PEM text this key was parsed from.
    pub closed spec fn spec_pem(&self) -> Seq<char> {
        self.pem@
    }

    /// Parses a PEM private key and binds it to `key_id`; fails with
    /// `KeyParse` exactly where the PEM text is not an ES256 private key.
    pub fn try_new(pem: &str, key_id: &str) -> (r: Result<Self, Error>)
        ensures
            r is Ok <==> pem_keypair_ok(pem@),
            r matches Ok(k) ==> k.spec_key_id() == key_id@ && k.spec_pem() == pem@,
            r is Err ==> r == Err::<Self, Error>(Error::KeyParse),
    {
        match parse_keypair(pem) {
            Some(k) => Ok(SigningKey { key: k, key_id: key_id.to_owned(), pem: Ghost(pem@) }),
            None => Err(Error::KeyParse),
        }
    }

    /// The PEM text of this key's public counterpart, from which a
    /// matching `VerifyingKey` can be built.
    pub fn public_key_pem(&self) -> (r: Option<String>)
        ensures
            r is Some <==> counterpart_pem_ok(self.spec_pem()),
            r matches Some(p) ==> keypair_of(self.spec_pem(), p@),
    {
        public_pem_of(self)
    }

    /// The key identifier.
    pub fn key_id(&self) -> (r: &String)
        ensures
            r@ == self.spec_key_id(),
    {
        &self.key_id
    }

    /// Signs a token at the given time: claims are issued at `now` and
    /// expire `expiration` seconds later (clamped at the largest
    /// representable time), and the result is the three-segment compact
    /// string; only a cryptographic failure is an error.
    pub fn sign_at(&self, iss: &str, expiration: u64, now: u64) -> (r: Result<String, Error>)
        ensures
            r matches Ok(t) ==> exists|sig: Seq<u8>|
                (sig.len() == 64 && encode_utf8(t@) == token_bytes(
                    encode_utf8(self.spec_key_id()),
                    encode_utf8(iss@),
                    now,
                    sat_add(now, expiration),
                    sig,
                ) && (forall|pub_pem: Seq<char>|
                    keypair_of(self.spec_pem(), pub_pem) ==> sig_valid(
                        pub_pem,
                        signing_input(
                            encode_utf8(self.spec_key_id()),
                            encode_utf8(iss@),
                            now,
                            sat_add(now, expiration),
                        ),
                        sig,
                    ))),
            r is Ok <==> ecdsa_sign_ok(
                self.spec_pem(),
                signing_input(
                    encode_utf8(self.spec_key_id()),
                    encode_utf8(iss@),
                    now,
                    sat_add(now, expiration),
                ),
            ),
            r is Err ==> r == Err::<String, Error>(Error::Signing),
    {
        let exp = if expiration > u64::MAX - now {
            u64::MAX
        } else {
            now + expiration
        };
        let hj = header_to_json(self.key_id.as_str().as_bytes());
        let hseg = b64_encode(hj.as_slice());
        let cj = claims_to_json(iss.as_bytes(), now, exp);
        let cseg = b64_encode(cj.as_slice());
        let msg = join_dot(hseg.as_slice(), cseg.as_slice());
        proof {
            assert(exp == sat_add(now, expiration));
            assert(msg@ == signing_input(
                encode_utf8(self.spec_key_id()),
                encode_utf8(iss@),
                now,
                sat_add(now, expiration),
            ));
        }
        let sig = match ecdsa_sign_raw(self, msg.as_slice()) {
            Some(s) => s,
            None => {
                return Err(Error::Signing);
            },
        };
        let sseg = b64_encode(sig.as_slice());
        let tok = join_dot(msg.as_slice(), sseg.as_slice());
        proof {
            assert(exp == sat_add(now, expiration));
            assert(tok@ =~= token_bytes(
                encode_utf8(self.key_id@),
                encode_utf8(iss@),
                now,
                exp,
                sig@,
            ));
            lemma_token_ascii(encode_utf8(self.key_id@), encode_utf8(iss@), now, exp, sig@);
            assert forall|i: int| 0 <= i < tok@.len() implies tok@[i] < 128 by {
                assert(tok@[i] == token_bytes(
                    encode_utf8(self.key_id@),
                    encode_utf8(iss@),
                    now,
                    exp,
                    sig@,
                )[i]);
            }
        }
        let ghost sigg = sig@;
        let s = ascii_string(tok);
        proof {
            assert(msg@ == signing_input(
                encode_utf8(self.spec_key_id()),
                encode_utf8(iss@),
                now,
                sat_add(now, expiration),
            ));
            assert(sigg.len() == 64 && encode_utf8(s@) == token_bytes(
                encode_utf8(self.spec_key_id()),
                encode_utf8(iss@),
                now,
                sat_add(now, expiration),
                sigg,
            ));
            assert(forall|pub_pem: Seq<char>|
                keypair_of(self.spec_pem(), pub_pem) ==> sig_valid(
                    pub_pem,
                    signing_input(
                        encode_utf8(self.spec_key_id()),
                        encode_utf8(iss@),
                        now,
                        sat_add(now, expiration),
                    ),
                    sigg,
                ));
        }
        Ok(s)
    }

    /// Signs a token with the current time as the issue time.
    pub fn sign(&self, iss: &str, expiration: u64) -> (r: Result<String, Error>)
        ensures
            r matches Ok(t) ==> exists|now: u64, sig: Seq<u8>|
                (sig.len() == 64 && encode_utf8(t@) == token_bytes(
                    encode_utf8(self.spec_key_id()),
                    encode_utf8(iss@),
                    now,
                    sat_add(now, expiration),
                    sig,
                ) && (forall|pub_pem: Seq<char>|
                    keypair_of(self.spec_pem(), pub_pem) ==> sig_valid(
                        pub_pem,
                        signing_input(
                            encode_utf8(self.spec_key_id()),
                            encode_utf8(iss@),
                            now,
                            sat_add(now, expiration),
                        ),
                        sig,
                    ))),
            r is Err ==> r == Err::<String, Error>(Error::Signing) && (exists|now: u64|
                !ecdsa_sign_ok(
                    self.spec_pem(),
                    signing_input(
                        encode_utf8(self.spec_key_id()),
                        encode_utf8(iss@),
                        now,
                        sat_add(now, expiration),
                    ),
                )),
            r is Ok ==> exists|now: u64|
                ecdsa_sign_ok(
                    self.spec_pem(),
                    signing_input(
                        encode_utf8(self.spec_key_id()),
                        encode_utf8(iss@),
                        now,
                        sat_add(now, expiration),
                    ),
                ),
    {
        let now = now_unix();
        self.sign_at(iss, expiration, now)
    }
}

impl VerifyingKey {
    /// The key identifier this key was created with.
    pub closed spec fn spec_key_id(&self) -> Seq<char> {
        self.key_id@
    }

    /// The PEM text this key was parsed from.
    pub closed spec fn spec_pem(&self) -> Seq<char> {
        self.pem@
    }

    /// Parses a PEM public key and binds it to `key_id`; fails with
    /// `KeyParse` exactly where the PEM text is not an ES256 public key.
    pub fn try_new(pem: &str, key_id: &str) -> (r: Result<Self, Error>)
        ensures
            r is Ok <==> pem_public_ok(pem@),
            r matches Ok(k) ==> k.spec_key_id() == key_id@ && k.spec_pem() == pem@,
            r is Err ==> r == Err::<Self, Error>(Error::KeyParse),
    {
        match parse_public(pem) {
            Some(k) => Ok(
                VerifyingKey { key: k, key_id: key_id.to_owned(), pem: Ghost(pem@) },
            ),
            None => Err(Error::KeyParse),
        }
    }

    /// The key identifier.
    pub fn key_id(&self) -> (r: &String)
        ensures
            r@ == self.spec_key_id(),
    {
        &self.key_id
    }

    /// Runs the validation pipeline at the given time.  A token that is
    /// not three canonical segments is a `MalformedToken` error; a
    /// well-formed token yields the conjunction of the algorithm, key-id,
    /// signature, expiration and issuer checks, short-circuiting in that
    /// order.
    #[verifier::rlimit(100)]
    pub fn verify_with_time_tolerance_at(
        &self,
        token: &str,
        iss: &str,
        tolerance: Option<u64>,
        now: u64,
    ) -> (r: Result<bool, Error>)
        ensures
            r == verify_outcome(
                self.spec_pem(),
                encode_utf8(self.spec_key_id()),
                encode_utf8(token@),
                encode_utf8(iss@),
                spec_tol(tolerance),
                now,
            ),
    {
        let tol = match tolerance {
            Some(x) => x,
            None => 0,
        };
        let tok = token.as_bytes();
        let ghost tb = encode_utf8(token@);
        proof {
            assert(tok@ == tb);
        }
        let parts = split3(tok);
        if parts.is_none() {
            proof {
                if exists|s: (Seq<u8>, Seq<u8>, Seq<u8>)| is_split3(tb, s.0, s.1, s.2) {
                    let s = choose|s: (Seq<u8>, Seq<u8>, Seq<u8>)| is_split3(tb, s.0, s.1, s.2);
                    assert(!is_split3(tb, s.0, s.1, s.2));
                }
            }
            return Err(Error::MalformedToken);
        }
        let (s1, s2, s3) = parts.unwrap();
        let ghost w = (s1@, s2@, s3@);
        proof {
            assert(is_split3(tb, w.0, w.1, w.2));
            let sc = choose|s: (Seq<u8>, Seq<u8>, Seq<u8>)| is_split3(tb, s.0, s.1, s.2);
            lemma_split3_unique(tb, sc.0, sc.1, sc.2, s1@, s2@, s3@);
        }
        let hb = match b64_decode(s1.as_slice()) {
            Some(v) => v,
            None => {
                return Err(Error::MalformedToken);
            },
        };
        let cb = match b64_decode(s2.as_slice()) {
            Some(v) => v,
            None => {
                return Err(Error::MalformedToken);
            },
        };
        let sg = match b64_decode(s3.as_slice()) {
            Some(v) => v,
            None => {
                return Err(Error::MalformedToken);
            },
        };
        let hdr = match parse_header(&hb) {
            Some(h) => h,
            None => {
                return Err(Error::MalformedToken);
            },
        };
        let clm = match parse_claims(&cb) {
            Some(c) => c,
            None => {
                return Err(Error::MalformedToken);
            },
        };
        let (alg_opt, kid_opt) = hdr;
        let (ciss, iat, exp) = clm;
        let es = es256_vec();
        let alg_ok = match &alg_opt {
            Some(a) => bytes_eq(a.as_slice(), es.as_slice()),
            None => false,
        };
        if !alg_ok {
            return Ok(false);
        }
        let kid_ok = match &kid_opt {
            Some(kv) => bytes_eq(kv.as_slice(), self.key_id.as_str().as_bytes()),
            None => false,
        };
        if !kid_ok {
            return Ok(false);
        }
        if sg.len() != 64 {
            return Ok(false);
        }
        let msg = join_dot(s1.as_slice(), s2.as_slice());
        if !ecdsa_verify_raw(self, msg.as_slice(), sg.as_slice()) {
            return Ok(false);
        }
        let not_expired = if now <= exp {
            true
        } else {
            now - exp <= tol
        };
        if !not_expired {
            return Ok(false);
        }
        if iss.as_bytes().len() > 0 && !bytes_eq(ciss.as_slice(), iss.as_bytes()) {
            return Ok(false);
        }
        Ok(true)
    }

    /// Runs the validation pipeline with the current time and the given
    /// clock-skew tolerance (none means zero).
    pub fn verify_with_time_tolerance(
        &self,
        token: &str,
        iss: &str,
        tolerance: Option<u64>,
    ) -> (r: Result<bool, Error>)
        ensures
            exists|now: u64|
                r == verify_outcome(
                    self.spec_pem(),
                    encode_utf8(self.spec_key_id()),
                    encode_utf8(token@),
                    encode_utf8(iss@),
                    spec_tol(tolerance),
                    now,
                ),
    {
        let now = now_unix();
        self.verify_with_time_tolerance_at(token, iss, tolerance, now)
    }

    /// Runs the validation pipeline with the current time and no
    /// tolerance.
    pub fn verify(&self, token: &str, iss: &str) -> (r: Result<bool, Error>)
        ensures
            exists|now: u64|
                r == verify_outcome(
                    self.spec_pem(),
                    encode_utf8(self.spec_key_id()),
                    encode_utf8(token@),
                    encode_utf8(iss@),
                    0,
                    now,
                ),
    {
        self.verify_with_time_tolerance(token, iss, None)
    }
}

/// The algorithm name `ES256` as bytes.
fn es256_vec() -> (r: Vec<u8>)
    ensures
        r@ == es256_bytes(),
{
    let mut out: Vec<u8> = Vec::new();
    out.push(69);
    out.push(83);
    out.push(50);
    out.push(53);
    out.push(54);
    proof {
        assert(out@ =~= es256_bytes());
    }
    out
}

} // verus!
