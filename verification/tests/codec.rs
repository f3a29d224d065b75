use amtt::b64::b64_decode;
use amtt::b64::b64_encode;
use amtt::cli::process_gen_token;
use amtt::cli::verify_expiration;
use amtt::cli::verify_id;
use amtt::errors::Error;
use amtt::json::claims_to_json;
use amtt::json::header_to_json;
use amtt::json::parse_claims;
use amtt::json::parse_header;
use amtt::keys::SigningKey;
use amtt::keys::VerifyingKey;
use jwt_simple::algorithms::ES256KeyPair;
use jwt_simple::algorithms::ECDSAP256KeyPairLike;
use jwt_simple::claims::Claims;
use jwt_simple::prelude::Duration;

fn gen_pems() -> (String, String) {
    let kp = ES256KeyPair::generate();
    let private = kp.to_pem().unwrap();
    let public = kp.public_key().to_pem().unwrap();
    (private, public)
}

#[test]
fn b64_known_vectors() {
    assert_eq!(b64_encode(b"Man"), b"TWFu".to_vec());
    assert_eq!(b64_encode(b"Ma"), b"TWE".to_vec());
    assert_eq!(b64_encode(b"M"), b"TQ".to_vec());
    assert_eq!(b64_encode(b""), b"".to_vec());
    assert_eq!(b64_encode(&[251u8, 239, 190]), b"----".to_vec());
}

#[test]
fn b64_decode_inverts_encode() {
    let samples: Vec<Vec<u8>> = vec![
        b"".to_vec(),
        b"M".to_vec(),
        b"Ma".to_vec(),
        b"Man".to_vec(),
        b"Many hands make light work.".to_vec(),
        vec![0u8, 255, 128, 7],
    ];
    for s in samples {
        let enc = b64_encode(&s);
        assert_eq!(b64_decode(&enc), Some(s));
    }
}

#[test]
fn b64_decode_rejects_non_canonical() {
    // bad length
    assert_eq!(b64_decode(b"A"), None);
    assert_eq!(b64_decode(b"AAAAA"), None);
    // padding characters are not part of the alphabet
    assert_eq!(b64_decode(b"TQ=="), None);
    // nonzero trailing bits
    assert_eq!(b64_decode(b"TR"), None);
    assert_eq!(b64_decode(b"TWF"), None);
    // byte outside the alphabet
    assert_eq!(b64_decode(b"T!"), None);
}

#[test]
fn claims_json_exact_form() {
    let j = claims_to_json(b"ABC", 5, 10);
    assert_eq!(j, b"{\"iss\":\"ABC\",\"iat\":5,\"exp\":10}".to_vec());
    assert_eq!(parse_claims(&j), Some((b"ABC".to_vec(), 5, 10)));
}

#[test]
fn claims_json_escapes() {
    let j = claims_to_json(b"a\"b\\c", 0, 1);
    assert_eq!(j, b"{\"iss\":\"a\\\"b\\\\c\",\"iat\":0,\"exp\":1}".to_vec());
    assert_eq!(parse_claims(&j), Some((b"a\"b\\c".to_vec(), 0, 1)));
}

#[test]
fn claims_json_control_bytes_round_trip() {
    let j = claims_to_json(b"a\nb\x1fc", 3, 4);
    assert_eq!(j, b"{\"iss\":\"a\\u000ab\\u001fc\",\"iat\":3,\"exp\":4}".to_vec());
    assert_eq!(parse_claims(&j), Some((b"a\nb\x1fc".to_vec(), 3, 4)));
    // upper-case hex and out-of-range values are not canonical
    assert_eq!(parse_claims(&b"{\"iss\":\"\\u000A\",\"iat\":3,\"exp\":4}".to_vec()), None);
    assert_eq!(parse_claims(&b"{\"iss\":\"\\u0041\",\"iat\":3,\"exp\":4}".to_vec()), None);
}

#[test]
fn control_character_issuer_round_trips() {
    let (priv_pem, pub_pem) = gen_pems();
    let issued = 1_700_000_000u64;
    let sk = SigningKey::try_new(&priv_pem, "ABCDE12345").unwrap();
    let vk = VerifyingKey::try_new(&pub_pem, "ABCDE12345").unwrap();
    let token = sk.sign_at("LINE\nFEED\tTAB", 3600, issued).unwrap();
    let verdict = vk
        .verify_with_time_tolerance_at(&token, "LINE\nFEED\tTAB", Some(0), issued + 1)
        .unwrap();
    assert!(verdict);
}

#[test]
fn public_counterpart_pem_round_trips() {
    let kp = ES256KeyPair::generate();
    let priv_pem = kp.to_pem().unwrap();
    let sk = SigningKey::try_new(&priv_pem, "ABCDE12345").unwrap();
    let pub_pem = sk.public_key_pem().unwrap();
    let vk = VerifyingKey::try_new(&pub_pem, "ABCDE12345").unwrap();
    let token = sk.sign_at("TEAMID1234", 3600, 1_700_000_000).unwrap();
    let verdict = vk
        .verify_with_time_tolerance_at(&token, "TEAMID1234", Some(0), 1_700_000_001)
        .unwrap();
    assert!(verdict);
}

#[test]
fn claims_json_member_order_is_free() {
    assert_eq!(
        parse_claims(&b"{\"iss\":\"A\",\"exp\":2,\"iat\":1}".to_vec()),
        Some((b"A".to_vec(), 1, 2))
    );
    assert_eq!(
        parse_claims(&b"{\"nbf\":7,\"iat\":1,\"exp\":2,\"iss\":\"A\",\"aud\":\"x\"}".to_vec()),
        Some((b"A".to_vec(), 1, 2))
    );
    assert_eq!(
        parse_header(&b"{\"alg\":\"ES256\",\"typ\":\"JWT\",\"kid\":\"K\"}".to_vec()),
        Some((Some(b"ES256".to_vec()), Some(b"K".to_vec())))
    );
    assert_eq!(
        parse_header(&b"{\"typ\":\"JWT\",\"alg\":\"ES256\"}".to_vec()),
        Some((Some(b"ES256".to_vec()), None))
    );
}

#[test]
fn claims_json_rejects_malformed() {
    // leading zero, whitespace, trailing bytes, overflow, missing member
    assert_eq!(parse_claims(&b"{\"iss\":\"A\",\"iat\":01,\"exp\":2}".to_vec()), None);
    assert_eq!(parse_claims(&b"{ \"iss\":\"A\",\"iat\":1,\"exp\":2}".to_vec()), None);
    assert_eq!(parse_claims(&b"{\"iss\":\"A\",\"iat\":1,\"exp\":2} ".to_vec()), None);
    assert_eq!(parse_claims(&b"{\"iss\":\"A\",\"iat\":1,\"exp\":18446744073709551616}".to_vec()), None);
    assert_eq!(parse_claims(&b"{\"iss\":\"A\",\"iat\":1}".to_vec()), None);
    assert_eq!(parse_claims(&b"{\"iss\":7,\"iat\":1,\"exp\":2}".to_vec()), None);
}

#[test]
fn header_json_exact_form() {
    let j = header_to_json(b"KEYID");
    assert_eq!(j, b"{\"alg\":\"ES256\",\"kid\":\"KEYID\"}".to_vec());
    assert_eq!(parse_header(&j), Some((Some(b"ES256".to_vec()), Some(b"KEYID".to_vec()))));
}

#[test]
fn token_has_three_segments_and_known_prefix() {
    let (priv_pem, _) = gen_pems();
    let sk = SigningKey::try_new(&priv_pem, "ABCDE12345").unwrap();
    let token = sk.sign_at("TEAMID1234", 604800, 1_700_000_000).unwrap();
    assert_eq!(token.split('.').count(), 3);
    // base64url of `{"alg":"ES256",` — the canonical header prefix
    assert!(token.starts_with("eyJhbGciOiJFUzI1NiIs"));
}

#[test]
fn seven_day_window_boundary() {
    let (priv_pem, pub_pem) = gen_pems();
    let issued = 1_700_000_000u64;
    let sk = SigningKey::try_new(&priv_pem, "ABCDE12345").unwrap();
    let vk = VerifyingKey::try_new(&pub_pem, "ABCDE12345").unwrap();
    let token = sk.sign_at("TEAMID1234", 604800, issued).unwrap();
    let inside = vk
        .verify_with_time_tolerance_at(&token, "TEAMID1234", Some(0), issued + 604800)
        .unwrap();
    assert!(inside);
    let outside = vk
        .verify_with_time_tolerance_at(&token, "TEAMID1234", Some(0), issued + 604801)
        .unwrap();
    assert!(!outside);
}

#[test]
fn tolerance_recovers_expired_token() {
    let (priv_pem, pub_pem) = gen_pems();
    let issued = 1_700_000_000u64;
    let sk = SigningKey::try_new(&priv_pem, "ABCDE12345").unwrap();
    let vk = VerifyingKey::try_new(&pub_pem, "ABCDE12345").unwrap();
    let token = sk.sign_at("ISSUER-ONE", 1, issued).unwrap();
    let strict = vk
        .verify_with_time_tolerance_at(&token, "ISSUER-ONE", Some(0), issued + 2)
        .unwrap();
    assert!(!strict);
    let lenient = vk
        .verify_with_time_tolerance_at(&token, "ISSUER-ONE", Some(3600), issued + 2)
        .unwrap();
    assert!(lenient);
}

#[test]
fn tampered_payload_is_rejected() {
    let (priv_pem, pub_pem) = gen_pems();
    let issued = 1_700_000_000u64;
    let sk = SigningKey::try_new(&priv_pem, "ABCDE12345").unwrap();
    let vk = VerifyingKey::try_new(&pub_pem, "ABCDE12345").unwrap();
    let token = sk.sign_at("TEAMID1234", 3600, issued).unwrap();
    let segs: Vec<&str> = token.split('.').collect();
    let mut payload = b64_decode(segs[1].as_bytes()).unwrap();
    // change one byte inside the issuer: `{"iss":"T...` — index 8 is 'T'
    assert_eq!(payload[8], b'T');
    payload[8] = b'X';
    let forged = format!(
        "{}.{}.{}",
        segs[0],
        String::from_utf8(b64_encode(&payload)).unwrap(),
        segs[2]
    );
    let verdict = vk
        .verify_with_time_tolerance_at(&forged, "XEAMID1234", Some(0), issued + 1)
        .unwrap();
    assert!(!verdict);
}

#[test]
fn jwt_simple_minted_token_verifies() {
    let kp = ES256KeyPair::generate().with_key_id("ABCDE12345");
    let pub_pem = kp.public_key().to_pem().unwrap();
    let claims = Claims::create(Duration::from_secs(3600)).with_issuer("TEAMID1234");
    let token = kp.sign(claims).unwrap();
    let vk = VerifyingKey::try_new(&pub_pem, "ABCDE12345").unwrap();
    // the header carries "typ" and the claims carry "nbf" in another
    // member order; both are accepted and the verdict is positive
    assert_eq!(vk.verify(&token, "TEAMID1234"), Ok(true));
    assert_eq!(vk.verify(&token, "WRONG_ISSUER"), Ok(false));
}

#[test]
fn malformed_input_is_an_error_not_a_verdict() {
    let (_, pub_pem) = gen_pems();
    let vk = VerifyingKey::try_new(&pub_pem, "ABCDE12345").unwrap();
    assert_eq!(vk.verify("not-a-token", "TEAMID1234"), Err(Error::MalformedToken));
    assert_eq!(vk.verify("a.b", "TEAMID1234"), Err(Error::MalformedToken));
    assert_eq!(vk.verify("a.b.c.d", "TEAMID1234"), Err(Error::MalformedToken));
}

#[test]
fn bad_key_material_is_a_key_parse_error() {
    let r = SigningKey::try_new("not a pem", "ABCDE12345");
    assert!(matches!(r, Err(Error::KeyParse)));
    let r2 = VerifyingKey::try_new("-----BEGIN PUBLIC KEY-----\nnope\n-----END PUBLIC KEY-----\n", "X");
    assert!(matches!(r2, Err(Error::KeyParse)));
}

#[test]
fn process_gen_token_mints_a_verifiable_token() {
    let (priv_pem, pub_pem) = gen_pems();
    let token = process_gen_token(&priv_pem, "TEAMID1234", "ABCDE12345", 2592000).unwrap();
    let vk = VerifyingKey::try_new(&pub_pem, "ABCDE12345").unwrap();
    assert!(vk.verify(&token, "TEAMID1234").unwrap());
    assert_eq!(
        process_gen_token("garbage", "TEAMID1234", "ABCDE12345", 10),
        Err(Error::KeyParse)
    );
}

#[test]
fn verify_id_wants_ten_characters() {
    assert_eq!(verify_id("TEAMID1234"), Ok("TEAMID1234".to_owned()));
    assert!(verify_id("short").is_err());
    assert!(verify_id("this-is-far-too-long").is_err());
    // ten characters, even where they are more than ten bytes
    assert_eq!(verify_id("ABCDEFGHIÄ"), Ok("ABCDEFGHIÄ".to_owned()));
}

#[test]
fn verify_expiration_parses_and_bounds() {
    assert_eq!(verify_expiration("2592000"), Ok(2592000));
    assert_eq!(verify_expiration("0"), Ok(0));
    assert_eq!(verify_expiration("007"), Ok(7));
    assert_eq!(verify_expiration("+5"), Ok(5));
    assert_eq!(verify_expiration("15777000"), Ok(15777000));
    assert_eq!(
        verify_expiration("15777001"),
        Err("expiration must not be greater than 15777000".to_string())
    );
    assert_eq!(
        verify_expiration("abc"),
        Err("`abc` isn't a expiration number".to_string())
    );
    assert_eq!(verify_expiration(""), Err("`` isn't a expiration number".to_string()));
    assert_eq!(verify_expiration("+"), Err("`+` isn't a expiration number".to_string()));
    assert_eq!(
        verify_expiration("99999999999999999999"),
        Err("`99999999999999999999` isn't a expiration number".to_string())
    );
}

#[test]
fn error_descriptions() {
    assert_eq!(Error::KeyParse.describe(), "invalid key encoding");
    assert_eq!(Error::MalformedToken.describe(), "malformed token");
    assert_eq!(Error::Signing.describe(), "signing failure");
}
