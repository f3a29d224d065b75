//! Validation of command-line parameters, and the token-generation
//! command's computational part.

use vstd::prelude::*;

use vstd::std_specs::iter::IteratorSpec;
use vstd::string::StringSliceAdditionalSpecFns;
use vstd::utf8::encode_scalar;
use vstd::utf8::encode_utf8;

use crate::errors::Error;
use crate::json::dec_val;
use crate::json::is_digit;
use crate::json::lemma_dec_val_prefix;
use crate::keys::ecdsa_sign_ok;
use crate::keys::keypair_of;
use crate::keys::pem_keypair_ok;
use crate::keys::sig_valid;
use crate::keys::SigningKey;
use crate::token::sat_add;
use crate::token::signing_input;
use crate::token::token_bytes;

verus! {

/// A string's UTF-8 form is at least one byte per character.
proof fn lemma_utf8_len(s: Seq<char>)
    ensures
        encode_utf8(s).len() >= s.len(),
    decreases s.len(),
{
    if s.len() > 0 {
        lemma_utf8_len(s.drop_first());
        assert(encode_scalar(s[0] as u32).len() >= 1);
    }
}

/// Counts the characters of a string.
pub fn char_count(s: &str) -> (r: usize)
    ensures
        r == s@.len(),
{
    broadcast use vstd::string::axiom_spec_iter;
    broadcast use vstd::string::next_postcondition;

    let bs = s.as_bytes();
    let bl = bs.len();
    proof {
        assert(bs@ == s.spec_bytes());
        assert(s.spec_bytes() == encode_utf8(s@));
        lemma_utf8_len(s@);
        assert(s@.len() <= bl);
    }
    let mut it = s.chars();
    let mut n: usize = 0;
    loop
        invariant
            it.obeys_prophetic_iter_laws(),
            n + it.remaining().len() == s@.len(),
            s@.len() <= bl,
        decreases bl - n,
    {
        let nx = it.next();
        if nx.is_none() {
            return n;
        }
        n += 1;
    }
}

/// Accepts an identifier of exactly ten characters and returns it owned.
pub fn verify_id(id: &str) -> (r: Result<String, &'static str>)
    ensures
        r is Ok <==> id@.len() == 10,
        r matches Ok(s) ==> s@ == id@,
        r matches Err(m) ==> m@ == "id shoud be 10-character"@,
{
    if char_count(id) == 10 {
        Ok(id.to_owned())
    } else {
        Err("id shoud be 10-character")
    }
}

/// The digit part of a number string: what follows an optional leading
/// plus sign.
pub open spec fn dec_digits_part(s: Seq<u8>) -> Seq<u8> {
    if s.len() > 0 && s[0] == 43 {
        s.skip(1)
    } else {
        s
    }
}

/// Whether the bytes are a decimal number as the standard parser reads
/// one: an optional leading plus, then digits, with a value that fits.
pub open spec fn dec_str_ok(s: Seq<u8>) -> bool {
    dec_digits_part(s).len() >= 1 && (forall|i: int|
        0 <= i < dec_digits_part(s).len() ==> is_digit(#[trigger] dec_digits_part(s)[i]))
        && dec_val(dec_digits_part(s)) <= u64::MAX
}

/// The value of such a number.
pub open spec fn dec_str_val(s: Seq<u8>) -> int {
    dec_val(dec_digits_part(s))
}

/// The rejection message for text that is not a number, quoting the text.
pub open spec fn not_number_msg(e: Seq<char>) -> Seq<char> {
    seq!['`'] + e + "` isn't a expiration number"@
}

/// Relies on the format macro: a backtick, the input, then the fixed
/// closing text.
#[verifier::external_body]
fn quote_not_number(e: &str) -> (r: String)
    ensures
        r@ == not_number_msg(e@),
{
    format!("`{e}` isn't a expiration number")
}

/// Parses an expiration in seconds and enforces the upper bound of
/// 15777000 seconds; rejects anything that is not a number in range, each
/// failure with its message.
pub fn verify_expiration(e: &str) -> (r: Result<u64, String>)
    ensures
        r is Ok <==> (dec_str_ok(encode_utf8(e@)) && dec_str_val(encode_utf8(e@)) <= 15777000),
        r matches Ok(n) ==> n as int == dec_str_val(encode_utf8(e@)),
        r matches Err(m) ==> m@ == (if dec_str_ok(encode_utf8(e@)) {
            "expiration must not be greater than 15777000"@
        } else {
            not_number_msg(e@)
        }),
{
    let b = e.as_bytes();
    let ghost eb = encode_utf8(e@);
    proof {
        assert(e.spec_bytes() == encode_utf8(e@));
        assert(b@ == eb);
    }
    let len = b.len();
    let st: usize = if len > 0 && b[0] == 43 {
        1
    } else {
        0
    };
    let ghost d = dec_digits_part(eb);
    proof {
        assert(d =~= b@.subrange(st as int, len as int));
    }
    if st == len {
        return Err(quote_not_number(e));
    }
    let mut val: u64 = 0;
    let mut i: usize = st;
    proof {
        assert(b@.subrange(st as int, st as int) =~= Seq::<u8>::empty());
    }
    while i < len
        invariant
            st <= i <= len,
            len == b@.len(),
            st <= 1,
            eb == b@,
            eb == encode_utf8(e@),
            d == dec_digits_part(eb),
            forall|k: int| st <= k < i ==> is_digit(#[trigger] b@[k]),
            dec_val(b@.subrange(st as int, i as int)) == val,
            d == b@.subrange(st as int, len as int),
        decreases len - i,
    {
        let c = b[i];
        if !(48 <= c && c <= 57) {
            proof {
                assert(dec_digits_part(eb)[i - st] == b@[i as int]);
                assert(!is_digit(dec_digits_part(eb)[i - st]));
            }
            return Err(quote_not_number(e));
        }
        let dd = c - 48;
        if val > (u64::MAX - dd as u64) / 10 {
            proof {
                if dec_str_ok(eb) {
                    assert(forall|k: int|
                        0 <= k < d.len() ==> is_digit(#[trigger] dec_digits_part(eb)[k]));
                    let pre = b@.subrange(st as int, i as int + 1);
                    assert(pre =~= d.take(i + 1 - st as int));
                    assert(pre.take(pre.len() - 1) =~= b@.subrange(st as int, i as int));
                    assert(pre.last() == b@[i as int]);
                    assert(dec_val(pre) == val * 10 + dd);
                    lemma_dec_val_prefix(d, i + 1 - st as int);
                    vstd::arithmetic::div_mod::lemma_fundamental_div_mod(
                        (u64::MAX - dd as u64) as int,
                        10,
                    );
                    assert(val * 10 + dd > u64::MAX);
                    assert(false);
                }
            }
            return Err(quote_not_number(e));
        }
        val = val * 10 + dd as u64;
        i += 1;
        proof {
            let sub1 = b@.subrange(st as int, i as int);
            assert(sub1.take(sub1.len() - 1) =~= b@.subrange(st as int, i as int - 1));
            assert(sub1.last() == b@[i as int - 1]);
        }
    }
    proof {
        assert(d =~= b@.subrange(st as int, len as int));
        assert forall|k: int| 0 <= k < d.len() implies is_digit(#[trigger] d[k]) by {
            assert(d[k] == b@[st as int + k]);
        }
        assert(dec_val(d) == val);
    }
    if val <= 15777000 {
        Ok(val)
    } else {
        Err("expiration must not be greater than 15777000".to_owned())
    }
}

/// Options of the token-generation command: validated identifiers, the
/// private-key file path, and the expiration in seconds.
#[derive(Debug)]
pub struct GenTokenOpts {
    pub team_id: String,
    pub key_id: String,
    pub file_path: String,
    pub expiration: u64,
}

/// The commands the tool offers.
#[derive(Debug)]
pub enum Commands {
    GenToken(GenTokenOpts),
}

/// The command-line surface: one of the commands.
#[derive(Debug)]
pub struct Opts {
    pub cmd: Commands,
}

/// Builds a signing key from PEM text and mints a token for the team
/// identifier: `KeyParse` exactly where the key text is rejected, and a
/// three-segment token otherwise (barring a cryptographic failure).
pub fn process_gen_token(pem: &str, team_id: &str, key_id: &str, expiration: u64) -> (r: Result<
    String,
    Error,
>)
    ensures
        !pem_keypair_ok(pem@) <==> r == Err::<String, Error>(Error::KeyParse),
        r matches Ok(t) ==> exists|now: u64, sig: Seq<u8>|
            (sig.len() == 64 && encode_utf8(t@) == token_bytes(
                encode_utf8(key_id@),
                encode_utf8(team_id@),
                now,
                sat_add(now, expiration),
                sig,
            ) && (forall|pub_pem: Seq<char>|
                keypair_of(pem@, pub_pem) ==> sig_valid(
                    pub_pem,
                    signing_input(
                        encode_utf8(key_id@),
                        encode_utf8(team_id@),
                        now,
                        sat_add(now, expiration),
                    ),
                    sig,
                ))),
        r is Err ==> r == Err::<String, Error>(Error::KeyParse) || r == Err::<String, Error>(
            Error::Signing,
        ),
        r == Err::<String, Error>(Error::Signing) ==> pem_keypair_ok(pem@) && (exists|now: u64|
            !ecdsa_sign_ok(
                pem@,
                signing_input(
                    encode_utf8(key_id@),
                    encode_utf8(team_id@),
                    now,
                    sat_add(now, expiration),
                ),
            )),
{
    let sk = match SigningKey::try_new(pem, key_id) {
        Ok(k) => k,
        Err(e) => {
            return Err(e);
        },
    };
    sk.sign(team_id, expiration)
}

} // verus!
