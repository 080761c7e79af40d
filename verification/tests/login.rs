use bangdream_optimize::login::{pem_body, sdk_password_field};
use bangdream_optimize::protobuf::ImportError;
use base64::engine::general_purpose::STANDARD;
use base64::Engine;
use rsa::pkcs8::EncodePublicKey;
use rsa::{Pkcs1v15Encrypt, RsaPrivateKey, RsaPublicKey};
use std::sync::OnceLock;

const KEY_FORMAT: &str = "登录服务的密码公钥格式异常";
const TOO_LONG: &str = "密码加密失败，请检查密码长度";

fn key() -> &'static RsaPrivateKey {
    static KEY: OnceLock<RsaPrivateKey> = OnceLock::new();
    KEY.get_or_init(|| RsaPrivateKey::new(&mut rand::rngs::OsRng, 1024).unwrap())
}

fn der_base64() -> String {
    let der = RsaPublicKey::from(key()).to_public_key_der().unwrap();
    STANDARD.encode(der.as_ref())
}

fn pem() -> String {
    let body = der_base64();
    let mut out = String::from("-----BEGIN PUBLIC KEY-----\n");
    for chunk in body.as_bytes().chunks(64) {
        out.push_str(std::str::from_utf8(chunk).unwrap());
        out.push('\n');
    }
    out.push_str("-----END PUBLIC KEY-----\n");
    out
}

fn account_message(r: &Result<String, ImportError>) -> Option<String> {
    match r {
        Err(ImportError::Account(m)) => Some(m.clone()),
        _ => None,
    }
}

#[test]
fn pem_body_strips_markers_and_whitespace() {
    let text = "-----BEGIN PUBLIC KEY-----\nAB C\r\n\tD=\n-----END PUBLIC KEY-----\n";
    assert_eq!(pem_body(text), "ABCD=");
    assert_eq!(pem_body("QUJD"), "QUJD");
    assert_eq!(pem_body(" -----END PUBLIC KEY----------END PUBLIC KEY----- "), "");
    assert_eq!(pem_body("-----BEGIN PUBLIC KEY---- x"), "-----BEGINPUBLICKEY----x");
}

#[test]
fn password_field_decrypts_to_prefix_and_password() {
    let field = sdk_password_field(&pem(), "prefix", "sample-password").unwrap();
    let cipher = STANDARD.decode(&field).unwrap();
    assert_eq!(cipher.len(), 128);
    let plain = key().decrypt(Pkcs1v15Encrypt, &cipher).unwrap();
    assert_eq!(plain, b"prefixsample-password");
}

#[test]
fn password_field_accepts_a_bare_base64_key() {
    let field = sdk_password_field(&der_base64(), "prefix", "sample-password").unwrap();
    let plain = key().decrypt(Pkcs1v15Encrypt, &STANDARD.decode(&field).unwrap()).unwrap();
    assert_eq!(plain, b"prefixsample-password");
}

#[test]
fn password_field_refuses_text_that_is_no_base64() {
    let r = sdk_password_field("-----BEGIN PUBLIC KEY-----\n***\n-----END PUBLIC KEY-----", "prefix", "pw");
    assert_eq!(account_message(&r).as_deref(), Some(KEY_FORMAT));
}

#[test]
fn password_field_refuses_base64_that_holds_no_key() {
    let r = sdk_password_field(&STANDARD.encode(b"not a key"), "prefix", "pw");
    assert_eq!(account_message(&r).as_deref(), Some(KEY_FORMAT));
}

#[test]
fn password_field_refuses_a_password_longer_than_the_key_allows() {
    let password = "p".repeat(128 - 11 - 6 + 1);
    let r = sdk_password_field(&pem(), "prefix", &password);
    assert_eq!(account_message(&r).as_deref(), Some(TOO_LONG));
}

#[test]
fn password_field_takes_the_longest_password_the_key_allows() {
    let password = "p".repeat(128 - 11 - 6);
    let field = sdk_password_field(&pem(), "prefix", &password).unwrap();
    let cipher = STANDARD.decode(&field).unwrap();
    assert_eq!(cipher.len(), 128);
    let plain = key().decrypt(Pkcs1v15Encrypt, &cipher).unwrap();
    assert_eq!(plain, format!("prefix{password}").into_bytes());
}
