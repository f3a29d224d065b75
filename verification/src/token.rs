//! The compact token: three base64url segments joined by dots, the bytes
//! that get signed, and the validation outcome.

use vstd::prelude::*;

use crate::b64::b64_decode_seq;
use crate::b64::b64_encode_seq;
use crate::b64::is_b64;
use crate::b64::lemma_b64_round_trip;
use crate::b64::lemma_encode_all_b64;
use crate::errors::Error;
use crate::json::claims_json_bytes;
use crate::json::es256_bytes;
use crate::json::header_json_bytes;
use crate::json::spec_parse_claims;
use crate::json::spec_parse_header;

verus! {

/// `expiration` added to `now`, clamped at the largest representable time.
pub open spec fn sat_add(a: u64, b: u64) -> u64 {
    if a + b > u64::MAX {
        u64::MAX
    } else {
        (a + b) as u64
    }
}

/// The two segments covered by the signature, joined by a dot.
pub open spec fn signing_input(kid: Seq<u8>, iss: Seq<u8>, iat: u64, exp: u64) -> Seq<u8> {
    b64_encode_seq(header_json_bytes(es256_bytes(), kid)) + seq![46u8] + b64_encode_seq(
        claims_json_bytes(iss, iat, exp),
    )
}

/// The complete compact token for the given claims and raw signature.
pub open spec fn token_bytes(kid: Seq<u8>, iss: Seq<u8>, iat: u64, exp: u64, sig: Seq<u8>) -> Seq<
    u8,
> {
    signing_input(kid, iss, iat, exp) + seq![46u8] + b64_encode_seq(sig)
}

/// No dot anywhere in the sequence.
pub open spec fn dot_free(s: Seq<u8>) -> bool {
    forall|i: int| 0 <= i < s.len() ==> s[i] != 46
}

/// `t` is exactly the three dot-free segments joined by dots.
pub open spec fn is_split3(t: Seq<u8>, s1: Seq<u8>, s2: Seq<u8>, s3: Seq<u8>) -> bool {
    t == s1 + seq![46u8] + s2 + seq![46u8] + s3 && dot_free(s1) && dot_free(s2) && dot_free(s3)
}

/// The tolerance a caller asked for; absent means none.
pub open spec fn spec_tol(t: Option<u64>) -> u64 {
    match t {
        Some(x) => x,
        None => 0,
    }
}

/// The validation pipeline's outcome on a token, as a value: a structural
/// error where the token is not three well-formed segments, otherwise the
/// conjunction of the algorithm, key-id, signature, expiration and issuer
/// checks.
pub open spec fn verify_outcome(
    pem: Seq<char>,
    vkid: Seq<u8>,
    tok: Seq<u8>,
    iss: Seq<u8>,
    tol: u64,
    now: u64,
) -> Result<bool, Error> {
    if exists|s: (Seq<u8>, Seq<u8>, Seq<u8>)| is_split3(tok, s.0, s.1, s.2) {
        let s = choose|s: (Seq<u8>, Seq<u8>, Seq<u8>)| is_split3(tok, s.0, s.1, s.2);
        match (b64_decode_seq(s.0), b64_decode_seq(s.1), b64_decode_seq(s.2)) {
            (Some(hb), Some(cb), Some(sig)) => match (spec_parse_header(hb), spec_parse_claims(
                cb,
            )) {
                (Some(h), Some(c)) => Ok(
                    h.0 == Some(es256_bytes()) && h.1 == Some(vkid) && sig.len() == 64
                        && crate::keys::sig_valid(pem, s.0 + seq![46u8] + s.1, sig) && now as int
                        <= c.2 as int + tol as int && (iss.len() == 0 || c.0 == iss),
                ),
                _ => Err(Error::MalformedToken),
            },
            _ => Err(Error::MalformedToken),
        }
    } else {
        Err(Error::MalformedToken)
    }
}

/// A token splits in at most one way.
pub proof fn lemma_split3_unique(
    t: Seq<u8>,
    a1: Seq<u8>,
    a2: Seq<u8>,
    a3: Seq<u8>,
    b1: Seq<u8>,
    b2: Seq<u8>,
    b3: Seq<u8>,
)
    requires
        is_split3(t, a1, a2, a3),
        is_split3(t, b1, b2, b3),
    ensures
        a1 == b1 && a2 == b2 && a3 == b3,
{
    assert(t.len() == a1.len() + 1 + a2.len() + 1 + a3.len());
    assert(t.len() == b1.len() + 1 + b2.len() + 1 + b3.len());
    assert(t[a1.len() as int] == 46);
    assert(t[b1.len() as int] == 46);
    if a1.len() < b1.len() {
        assert(t[a1.len() as int] == b1[a1.len() as int]);
        assert(false);
    }
    if b1.len() < a1.len() {
        assert(t[b1.len() as int] == a1[b1.len() as int]);
        assert(false);
    }
    assert forall|i: int| 0 <= i < a1.len() implies a1[i] == b1[i] by {
        assert(t[i] == a1[i]);
        assert(t[i] == b1[i]);
    }
    assert(a1 =~= b1);
    let o = a1.len() as int + 1;
    assert(t[o + a2.len()] == 46);
    assert(t[o + b2.len()] == 46);
    if a2.len() < b2.len() {
        assert(t[o + a2.len()] == b2[a2.len() as int]);
        assert(false);
    }
    if b2.len() < a2.len() {
        assert(t[o + b2.len()] == a2[b2.len() as int]);
        assert(false);
    }
    assert forall|i: int| 0 <= i < a2.len() implies a2[i] == b2[i] by {
        assert(t[o + i] == a2[i]);
        assert(t[o + i] == b2[i]);
    }
    assert(a2 =~= b2);
    let o2 = o + a2.len() as int + 1;
    assert forall|i: int| 0 <= i < a3.len() implies a3[i] == b3[i] by {
        assert(t[o2 + i] == a3[i]);
        assert(t[o2 + i] == b3[i]);
    }
    assert(a3 =~= b3);
}

/// Copies `t[a..b]` out as a fresh vector.
fn copy_range(t: &[u8], a: usize, b: usize) -> (r: Vec<u8>)
    requires
        a <= b <= t@.len(),
    ensures
        r@ == t@.subrange(a as int, b as int),
{
    let mut out: Vec<u8> = Vec::new();
    let mut i: usize = a;
    while i < b
        invariant
            a <= i <= b <= t@.len(),
            out@ == t@.subrange(a as int, i as int),
        decreases b - i,
    {
        out.push(t[i]);
        i += 1;
        proof {
            assert(out@ =~= t@.subrange(a as int, i as int));
        }
    }
    proof {
        assert(out@ =~= t@.subrange(a as int, b as int));
    }
    out
}

/// Splits a token into its three dot-separated segments; `None` where the
/// dot count differs from two.
pub fn split3(t: &[u8]) -> (r: Option<(Vec<u8>, Vec<u8>, Vec<u8>)>)
    ensures
        match r {
            Some(p) => is_split3(t@, p.0@, p.1@, p.2@),
            None => forall|s1: Seq<u8>, s2: Seq<u8>, s3: Seq<u8>| !is_split3(t@, s1, s2, s3),
        },
{
    let len = t.len();
    let mut d1: usize = 0;
    while d1 < len && t[d1] != 46
        invariant
            d1 <= len,
            len == t@.len(),
            forall|k: int| 0 <= k < d1 ==> t@[k] != 46,
        decreases len - d1,
    {
        d1 += 1;
    }
    if d1 == len {
        proof {
            assert forall|s1: Seq<u8>, s2: Seq<u8>, s3: Seq<u8>| !is_split3(t@, s1, s2, s3) by {
                if is_split3(t@, s1, s2, s3) {
                    assert(t@[s1.len() as int] == 46);
                    assert(t@.len() == s1.len() + 1 + s2.len() + 1 + s3.len());
                }
            }
        }
        return None;
    }
    let mut d2: usize = d1 + 1;
    while d2 < len && t[d2] != 46
        invariant
            d1 < d2 <= len,
            len == t@.len(),
            forall|k: int| d1 < k < d2 ==> t@[k] != 46,
        decreases len - d2,
    {
        d2 += 1;
    }
    proof {
        assert forall|s1: Seq<u8>, s2: Seq<u8>, s3: Seq<u8>|
            is_split3(t@, s1, s2, s3) implies s1.len() == d1 by {
            assert(t@[s1.len() as int] == 46);
            assert(t@.len() == s1.len() + 1 + s2.len() + 1 + s3.len());
            if s1.len() < d1 {
                assert(false);
            }
            if s1.len() > d1 {
                assert(t@[d1 as int] == s1[d1 as int]);
                assert(false);
            }
        }
    }
    if d2 == len {
        proof {
            assert forall|s1: Seq<u8>, s2: Seq<u8>, s3: Seq<u8>| !is_split3(t@, s1, s2, s3) by {
                if is_split3(t@, s1, s2, s3) {
                    let p2 = s1.len() as int + 1 + s2.len() as int;
                    assert(t@[p2] == 46);
                    assert(t@.len() == s1.len() + 1 + s2.len() + 1 + s3.len());
                    if p2 > d1 as int && p2 < d2 as int {
                        assert(t@[p2] != 46);
                    }
                    if p2 == d1 as int {
                        assert(s2.len() < 0);
                    }
                }
            }
        }
        return None;
    }
    let mut k: usize = d2 + 1;
    while k < len && t[k] != 46
        invariant
            d2 < k <= len,
            len == t@.len(),
            forall|j: int| d2 < j < k ==> t@[j] != 46,
        decreases len - k,
    {
        k += 1;
    }
    if k < len {
        proof {
            assert forall|s1: Seq<u8>, s2: Seq<u8>, s3: Seq<u8>| !is_split3(t@, s1, s2, s3) by {
                if is_split3(t@, s1, s2, s3) {
                    let p2 = s1.len() as int + 1 + s2.len() as int;
                    assert(t@[p2] == 46);
                    assert(s1.len() == d1);
                    if p2 < d2 as int {
                        assert(t@[p2] != 46);
                    }
                    if p2 > d2 as int {
                        assert(t@[d2 as int] == s2[d2 - d1 - 1]);
                        assert(false);
                    }
                    assert(p2 == d2 as int);
                    assert(t@[k as int] == 46);
                    assert(t@[k as int] == s3[k - d2 - 1]);
                    assert(false);
                }
            }
        }
        return None;
    }
    let s1 = copy_range(t, 0, d1);
    let s2 = copy_range(t, d1 + 1, d2);
    let s3 = copy_range(t, d2 + 1, len);
    proof {
        assert(t@ =~= s1@ + seq![46u8] + s2@ + seq![46u8] + s3@);
    }
    Some((s1, s2, s3))
}

/// Whether two byte strings hold the same bytes.
pub fn bytes_eq(a: &[u8], b: &[u8]) -> (r: bool)
    ensures
        r == (a@ == b@),
{
    if a.len() != b.len() {
        return false;
    }
    let n = a.len();
    let mut i: usize = 0;
    while i < n
        invariant
            i <= n,
            n == a@.len() && n == b@.len(),
            forall|k: int| 0 <= k < i ==> a@[k] == b@[k],
        decreases n - i,
    {
        if a[i] != b[i] {
            return false;
        }
        i += 1;
    }
    proof {
        assert(a@ =~= b@);
    }
    true
}

/// Joins two segments with a dot.
pub fn join_dot(a: &[u8], b: &[u8]) -> (r: Vec<u8>)
    ensures
        r@ == a@ + seq![46u8] + b@,
{
    let mut out = copy_range(a, 0, a.len());
    out.push(46);
    let n = b.len();
    let mut i: usize = 0;
    proof {
        assert(a@.subrange(0, a@.len() as int) =~= a@);
        assert(out@ =~= a@ + seq![46u8] + b@.subrange(0, 0));
    }
    while i < n
        invariant
            i <= n,
            n == b@.len(),
            out@ == a@ + seq![46u8] + b@.subrange(0, i as int),
        decreases n - i,
    {
        out.push(b[i]);
        i += 1;
        proof {
            assert(out@ =~= a@ + seq![46u8] + b@.subrange(0, i as int));
        }
    }
    proof {
        assert(b@.subrange(0, n as int) =~= b@);
    }
    out
}

/// Every byte of a token built from the canonical pieces is ASCII, so the
/// token is a plain ASCII string.
pub proof fn lemma_token_ascii(kid: Seq<u8>, iss: Seq<u8>, iat: u64, exp: u64, sig: Seq<u8>)
    ensures
        forall|i: int|
            0 <= i < token_bytes(kid, iss, iat, exp, sig).len() ==> #[trigger] token_bytes(
                kid,
                iss,
                iat,
                exp,
                sig,
            )[i] < 128,
{
    lemma_encode_all_b64(header_json_bytes(es256_bytes(), kid));
    lemma_encode_all_b64(claims_json_bytes(iss, iat, exp));
    lemma_encode_all_b64(sig);
    let h = b64_encode_seq(header_json_bytes(es256_bytes(), kid));
    let c = b64_encode_seq(claims_json_bytes(iss, iat, exp));
    let g = b64_encode_seq(sig);
    assert(forall|i: int| 0 <= i < h.len() ==> is_b64(#[trigger] h[i]));
    assert forall|i: int|
        0 <= i < token_bytes(kid, iss, iat, exp, sig).len() implies #[trigger] token_bytes(
        kid,
        iss,
        iat,
        exp,
        sig,
    )[i] < 128 by {
        let tb = token_bytes(kid, iss, iat, exp, sig);
        assert(tb == h + seq![46u8] + c + seq![46u8] + g);
        if i < h.len() {
            assert(tb[i] == h[i]);
        } else if i == h.len() {
        } else if i < h.len() + 1 + c.len() {
            assert(tb[i] == c[i - h.len() - 1]);
        } else if i == h.len() + 1 + c.len() {
        } else {
            assert(tb[i] == g[i - h.len() - c.len() - 2]);
        }
    }
}


/// The outcome on a canonically built token: well-formed by construction,
/// so the result is the conjunction of the five semantic checks.
#[verifier::rlimit(100)]
pub proof fn lemma_token_outcome(
    pem: Seq<char>,
    vkid: Seq<u8>,
    kid: Seq<u8>,
    iss: Seq<u8>,
    eiss: Seq<u8>,
    iat: u64,
    exp: u64,
    sig: Seq<u8>,
    tol: u64,
    now: u64,
)
    requires
        sig.len() == 64,
    ensures
        verify_outcome(pem, vkid, token_bytes(kid, iss, iat, exp, sig), eiss, tol, now)
            == Ok::<bool, Error>(
            kid == vkid && crate::keys::sig_valid(pem, signing_input(kid, iss, iat, exp), sig)
                && now as int <= exp as int + tol as int && (eiss.len() == 0 || iss == eiss),
        ),
{
    let tb = token_bytes(kid, iss, iat, exp, sig);
    let hj = header_json_bytes(es256_bytes(), kid);
    let cj = claims_json_bytes(iss, iat, exp);
    let h = b64_encode_seq(hj);
    let c = b64_encode_seq(cj);
    let g = b64_encode_seq(sig);
    lemma_encode_all_b64(hj);
    lemma_encode_all_b64(cj);
    lemma_encode_all_b64(sig);
    assert(dot_free(h)) by {
        assert forall|i: int| 0 <= i < h.len() implies h[i] != 46 by {
            assert(is_b64(h[i]));
        }
    }
    assert(dot_free(c)) by {
        assert forall|i: int| 0 <= i < c.len() implies c[i] != 46 by {
            assert(is_b64(c[i]));
        }
    }
    assert(dot_free(g)) by {
        assert forall|i: int| 0 <= i < g.len() implies g[i] != 46 by {
            assert(is_b64(g[i]));
        }
    }
    let w = (h, c, g);
    assert(tb == w.0 + seq![46u8] + w.1 + seq![46u8] + w.2) by {
        assert(tb =~= h + seq![46u8] + c + seq![46u8] + g);
    }
    assert(is_split3(tb, w.0, w.1, w.2));
    let sc = choose|s: (Seq<u8>, Seq<u8>, Seq<u8>)| is_split3(tb, s.0, s.1, s.2);
    lemma_split3_unique(tb, sc.0, sc.1, sc.2, h, c, g);
    lemma_b64_round_trip(hj);
    lemma_b64_round_trip(cj);
    lemma_b64_round_trip(sig);
    crate::json::lemma_spec_parse_header(hj, es256_bytes(), kid);
    crate::json::lemma_spec_parse_claims(cj, iss, iat, exp);
    assert(sc.0 + seq![46u8] + sc.1 == signing_input(kid, iss, iat, exp));
}

/// Round trip: a token built over claims, carrying a signature that the
/// key accepts over exactly the transmitted segments, verifies under the
/// matching key identifier and issuer within the expiration window.
pub proof fn lemma_round_trip(
    pem: Seq<char>,
    kid: Seq<u8>,
    iss: Seq<u8>,
    iat: u64,
    exp: u64,
    sig: Seq<u8>,
    tol: u64,
    now: u64,
)
    requires
        sig.len() == 64,
        crate::keys::sig_valid(pem, signing_input(kid, iss, iat, exp), sig),
        now as int <= exp as int + tol as int,
    ensures
        verify_outcome(pem, kid, token_bytes(kid, iss, iat, exp, sig), iss, tol, now)
            == Ok::<bool, Error>(true),
{
    lemma_token_outcome(pem, kid, kid, iss, iss, iat, exp, sig, tol, now);
}

/// Key-id enforcement: a key tagged with another identifier rejects the
/// token, even where signature, issuer and times are right.
pub proof fn lemma_key_id_mismatch(
    pem: Seq<char>,
    vkid: Seq<u8>,
    kid: Seq<u8>,
    iss: Seq<u8>,
    iat: u64,
    exp: u64,
    sig: Seq<u8>,
    tol: u64,
    now: u64,
)
    requires
        sig.len() == 64,
        kid != vkid,
    ensures
        verify_outcome(pem, vkid, token_bytes(kid, iss, iat, exp, sig), iss, tol, now)
            == Ok::<bool, Error>(false),
{
    lemma_token_outcome(pem, vkid, kid, iss, iss, iat, exp, sig, tol, now);
}

/// Expiration: past `exp` plus the tolerance, a well-formed token is
/// rejected, whatever the signature says.
pub proof fn lemma_expired(
    pem: Seq<char>,
    kid: Seq<u8>,
    iss: Seq<u8>,
    iat: u64,
    exp: u64,
    sig: Seq<u8>,
    tol: u64,
    now: u64,
)
    requires
        sig.len() == 64,
        now as int > exp as int + tol as int,
    ensures
        verify_outcome(pem, kid, token_bytes(kid, iss, iat, exp, sig), iss, tol, now)
            == Ok::<bool, Error>(false),
{
    lemma_token_outcome(pem, kid, kid, iss, iss, iat, exp, sig, tol, now);
}

/// Issuer mismatch: a nonempty expected issuer other than the one in the
/// claims is rejected.
pub proof fn lemma_issuer_mismatch(
    pem: Seq<char>,
    kid: Seq<u8>,
    iss: Seq<u8>,
    eiss: Seq<u8>,
    iat: u64,
    exp: u64,
    sig: Seq<u8>,
    tol: u64,
    now: u64,
)
    requires
        sig.len() == 64,
        eiss.len() > 0,
        eiss != iss,
    ensures
        verify_outcome(pem, kid, token_bytes(kid, iss, iat, exp, sig), eiss, tol, now)
            == Ok::<bool, Error>(false),
{
    lemma_token_outcome(pem, kid, kid, iss, eiss, iat, exp, sig, tol, now);
}

/// Tamper rejection at the pipeline level: a well-formed token whose
/// signature the key does not accept over the transmitted segments is
/// rejected.  (That a tampered segment makes the signature fail is the
/// cryptographic property of ECDSA, outside what is stated here.)
pub proof fn lemma_bad_signature(
    pem: Seq<char>,
    vkid: Seq<u8>,
    kid: Seq<u8>,
    iss: Seq<u8>,
    iat: u64,
    exp: u64,
    sig: Seq<u8>,
    tol: u64,
    now: u64,
)
    requires
        sig.len() == 64,
        !crate::keys::sig_valid(pem, signing_input(kid, iss, iat, exp), sig),
    ensures
        verify_outcome(pem, vkid, token_bytes(kid, iss, iat, exp, sig), iss, tol, now)
            == Ok::<bool, Error>(false),
{
    lemma_token_outcome(pem, vkid, kid, iss, iss, iat, exp, sig, tol, now);
}

/// Structural error: input without any dot is not a token at all, and the
/// pipeline reports an error rather than a verdict.
pub proof fn lemma_malformed_no_dot(
    pem: Seq<char>,
    vkid: Seq<u8>,
    tok: Seq<u8>,
    iss: Seq<u8>,
    tol: u64,
    now: u64,
)
    requires
        dot_free(tok),
    ensures
        verify_outcome(pem, vkid, tok, iss, tol, now) == Err::<bool, Error>(Error::MalformedToken),
{
    if exists|s: (Seq<u8>, Seq<u8>, Seq<u8>)| is_split3(tok, s.0, s.1, s.2) {
        let s = choose|s: (Seq<u8>, Seq<u8>, Seq<u8>)| is_split3(tok, s.0, s.1, s.2);
        assert(tok[s.0.len() as int] == 46);
        assert(tok.len() == s.0.len() + 1 + s.1.len() + 1 + s.2.len());
        assert(false);
    }
}


/// Round trip through a key pair: a token minted over the signing key's
/// PEM — its signature accepted under every PEM of the public
/// counterpart, as the signing contract provides — verifies under a key
/// built from such a counterpart PEM, with the same key id and issuer,
/// within the expiration window.
pub proof fn lemma_sign_round_trip(
    priv_pem: Seq<char>,
    pub_pem: Seq<char>,
    kid: Seq<u8>,
    iss: Seq<u8>,
    iat: u64,
    exp: u64,
    sig: Seq<u8>,
    tol: u64,
    now: u64,
)
    requires
        crate::keys::keypair_of(priv_pem, pub_pem),
        sig.len() == 64,
        forall|p: Seq<char>|
            crate::keys::keypair_of(priv_pem, p) ==> crate::keys::sig_valid(
                p,
                signing_input(kid, iss, iat, exp),
                sig,
            ),
        now as int <= exp as int + tol as int,
    ensures
        verify_outcome(pub_pem, kid, token_bytes(kid, iss, iat, exp, sig), iss, tol, now)
            == Ok::<bool, Error>(true),
{
    assert(crate::keys::sig_valid(pub_pem, signing_input(kid, iss, iat, exp), sig));
    lemma_round_trip(pub_pem, kid, iss, iat, exp, sig, tol, now);
}

} // verus!
