use amtt::errors::Error;
use amtt::keys::SigningKey;
use amtt::keys::VerifyingKey;
use jwt_simple::algorithms::ES256KeyPair;

const JWT_EXPIRATION: u64 = 60 * 60 * 24 * 7;
const JWT_ISS: &str = "JWT_ISS";
const JWT_KEY_ID: &str = "JWT_KEY_ID";

fn gen_pems() -> (String, String) {
    let kp = ES256KeyPair::generate();
    let private = kp.to_pem().unwrap();
    let public = kp.public_key().to_pem().unwrap();
    (private, public)
}

#[test]
fn jwt_sign_verify_should_work() {
    let (priv_pem, pub_pem) = gen_pems();
    let sk = SigningKey::try_new(&priv_pem, JWT_KEY_ID).unwrap();
    let vk = VerifyingKey::try_new(&pub_pem, JWT_KEY_ID).unwrap();
    let token = sk.sign(JWT_ISS, JWT_EXPIRATION).unwrap();
    let is_valid = vk.verify(&token, JWT_ISS).unwrap();
    assert!(is_valid);
}

#[test]
fn jwt_sign_verify_key_id_not_match() {
    const VERIFY_JWT_KEY_ID: &str = "VERIFY_JWT_KEY_ID";
    let (priv_pem, pub_pem) = gen_pems();
    let sk = SigningKey::try_new(&priv_pem, JWT_KEY_ID).unwrap();
    let vk = VerifyingKey::try_new(&pub_pem, VERIFY_JWT_KEY_ID).unwrap();
    let token = sk.sign(JWT_ISS, JWT_EXPIRATION).unwrap();
    let is_valid = vk.verify(&token, JWT_ISS).unwrap();
    assert!(!is_valid);
}

#[test]
fn jwt_sign_verify_issuer_not_match() {
    let (priv_pem, pub_pem) = gen_pems();
    let sk = SigningKey::try_new(&priv_pem, JWT_KEY_ID).unwrap();
    let vk = VerifyingKey::try_new(&pub_pem, JWT_KEY_ID).unwrap();
    let token = sk.sign(JWT_ISS, JWT_EXPIRATION).unwrap();
    let is_valid = vk.verify(&token, "WRONG_ISSUER").unwrap();
    assert!(!is_valid);
}

#[test]
fn jwt_sign_verify_expired_token() {
    let (priv_pem, pub_pem) = gen_pems();
    let sk = SigningKey::try_new(&priv_pem, JWT_KEY_ID).unwrap();
    let vk = VerifyingKey::try_new(&pub_pem, JWT_KEY_ID).unwrap();
    // issued at a fixed instant, expiring one second later; checked well
    // past the expiration with no tolerance
    let issued = 1_000_000u64;
    let token = sk.sign_at(JWT_ISS, 1, issued).unwrap();
    let is_valid = vk
        .verify_with_time_tolerance_at(&token, JWT_ISS, Some(0), issued + 5)
        .unwrap();
    assert!(!is_valid);
}

#[test]
fn jwt_sign_verify_invalid_token() {
    let (_priv_pem, pub_pem) = gen_pems();
    let vk = VerifyingKey::try_new(&pub_pem, JWT_KEY_ID).unwrap();
    // segments that are not canonical base64url are a structural error,
    // distinct from a negative verdict
    let outcome = vk.verify("invalid.token.value", JWT_ISS);
    assert_eq!(outcome, Err(Error::MalformedToken));
}
