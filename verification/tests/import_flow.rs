use bangdream_optimize::account::{AccountChannel, ClientVersion, CredentialImportRequest};
use bangdream_optimize::cipher::aes_decrypt_iso10126;
use bangdream_optimize::account::fail;
use bangdream_optimize::credentials::{
    application_versions, login_body, suite_request_id, ApplicationVersion, Form,
};
use bangdream_optimize::suite_import::suite_user_to_player_config;
use bangdream_optimize::import_flow::{
    credential_import_step, ImportAction, ImportContext, ImportEvent, ImportStage,
};
use bangdream_optimize::protobuf::{field_bytes, field_string, write_varint, ImportError};
use base64::engine::general_purpose::STANDARD;
use base64::Engine;
use rsa::pkcs8::EncodePublicKey;
use rsa::{Pkcs1v15Encrypt, RsaPrivateKey, RsaPublicKey};
use std::sync::OnceLock;

fn key() -> &'static RsaPrivateKey {
    static KEY: OnceLock<RsaPrivateKey> = OnceLock::new();
    KEY.get_or_init(|| RsaPrivateKey::new(&mut rand::rngs::OsRng, 1024).unwrap())
}

fn context(data: &str) -> ImportContext {
    ImportContext {
        request: CredentialImportRequest {
            account: "  test@example.invalid ".into(),
            password: "sample-password".into(),
            channel: AccountChannel::Android,
        },
        version: ClientVersion {
            client: "9.4.4".into(),
            code: "940400".into(),
            unity: "2022.3.62f1".into(),
        },
        application: ApplicationVersion { data: data.into(), master: "2026091400000000".into() },
    }
}

fn field<'a>(form: &'a Form, name: &str) -> Option<&'a str> {
    form.fields.iter().find(|(k, _)| k == name).map(|(_, v)| v.as_str())
}

fn stopped(r: (ImportStage, ImportAction)) -> String {
    match r {
        (ImportStage::Failed, ImportAction::Fail(ImportError::Account(m))) => m,
        other => panic!("expected a stop, got {:?}", other),
    }
}

fn integer(bytes: &mut Vec<u8>, number: u64, value: u64) {
    write_varint(bytes, number << 3);
    write_varint(bytes, value);
}

fn suite(registration_uid: u64, data_uid: u64) -> Vec<u8> {
    let mut registration = Vec::new();
    integer(&mut registration, 1, registration_uid);
    field_string(&mut registration, 3, "测试玩家");
    let mut data = Vec::new();
    integer(&mut data, 1, data_uid);
    let mut user = Vec::new();
    field_bytes(&mut user, 1, &registration);
    field_bytes(&mut user, 2, &data);
    let mut result = Vec::new();
    field_bytes(&mut result, 1, &user);
    result
}

#[test]
fn import_starts_by_asking_for_the_password_key() {
    let r = credential_import_step(ImportStage::Start, ImportEvent::Begin { time: 1234 }, &context("9.4.4.1"));
    assert_eq!(r.0, ImportStage::AwaitCipher);
    match r.1 {
        ImportAction::RequestCipher { form } => {
            assert_eq!(field(&form, "cipher_type"), Some("bili_login_rsa"));
            assert_eq!(field(&form, "timestamp"), Some("1234"));
            assert_eq!(field(&form, "app_ver"), Some("9.4.4"));
        }
        other => panic!("unexpected {:?}", other),
    }
}

#[test]
fn import_refuses_a_data_version_that_is_no_header_value() {
    let r = credential_import_step(ImportStage::Start, ImportEvent::Begin { time: 1 }, &context("9.4\n"));
    assert_eq!(stopped(r), "国服数据版本格式异常");
}

#[test]
fn import_logs_in_to_the_sdk_with_the_encrypted_password() {
    let ctx = context("9.4.4.1");
    let der = RsaPublicKey::from(key()).to_public_key_der().unwrap();
    let event = ImportEvent::Cipher {
        hash: Some("prefix".into()),
        cipher_key: Some(STANDARD.encode(der.as_ref())),
        time: 99,
    };
    let r = credential_import_step(ImportStage::AwaitCipher, event, &ctx);
    assert_eq!(r.0, ImportStage::AwaitSdkLogin);
    match r.1 {
        ImportAction::SdkLogin { form } => {
            assert_eq!(field(&form, "user_id"), Some("test@example.invalid"));
            assert_eq!(field(&form, "timestamp"), Some("99"));
            let cipher = STANDARD.decode(field(&form, "pwd").unwrap()).unwrap();
            let plain = key().decrypt(Pkcs1v15Encrypt, &cipher).unwrap();
            assert_eq!(plain, b"prefixsample-password");
        }
        other => panic!("unexpected {:?}", other),
    }
}

#[test]
fn import_stops_without_password_parameters() {
    let ctx = context("9.4.4.1");
    let missing_hash = ImportEvent::Cipher { hash: Some(String::new()), cipher_key: Some("x".into()), time: 1 };
    assert_eq!(stopped(credential_import_step(ImportStage::AwaitCipher, missing_hash, &ctx)), "登录服务没有返回密码加密参数");
    let missing_key = ImportEvent::Cipher { hash: Some("prefix".into()), cipher_key: None, time: 1 };
    assert_eq!(stopped(credential_import_step(ImportStage::AwaitCipher, missing_key, &ctx)), "登录服务没有返回密码公钥");
    let bad_key = ImportEvent::Cipher { hash: Some("prefix".into()), cipher_key: Some("@@".into()), time: 1 };
    assert_eq!(stopped(credential_import_step(ImportStage::AwaitCipher, bad_key, &ctx)), "登录服务的密码公钥格式异常");
}

#[test]
fn import_sends_the_game_login_after_the_sdk_login() {
    let ctx = context("9.4.4.1");
    let mut random = [0u8; 16];
    random[0] = 0xab;
    random[15] = 0x01;
    let event = ImportEvent::SdkLogin { uid: Some("123".into()), access_key: Some("test-access-key".into()), random };
    let r = credential_import_step(ImportStage::AwaitSdkLogin, event, &ctx);
    assert_eq!(r.0, ImportStage::AwaitGameLogin);
    match r.1 {
        ImportAction::GameLogin { request_id, body } => {
            assert_eq!(request_id, "ab000000000000000000000000000001");
            assert_eq!(aes_decrypt_iso10126(&body).unwrap(), login_body("123", "test-access-key", &ctx.version));
        }
        other => panic!("unexpected {:?}", other),
    }
}

#[test]
fn import_stops_on_a_bad_sdk_login_answer() {
    let ctx = context("9.4.4.1");
    let bad_uid = ImportEvent::SdkLogin { uid: Some("12a".into()), access_key: Some("k".into()), random: [0; 16] };
    assert_eq!(stopped(credential_import_step(ImportStage::AwaitSdkLogin, bad_uid, &ctx)), "登录服务没有返回有效账号编号");
    let no_uid = ImportEvent::SdkLogin { uid: None, access_key: Some("k".into()), random: [0; 16] };
    assert_eq!(stopped(credential_import_step(ImportStage::AwaitSdkLogin, no_uid, &ctx)), "登录服务没有返回有效账号编号");
    let no_key = ImportEvent::SdkLogin { uid: Some("123".into()), access_key: Some(String::new()), random: [0; 16] };
    assert_eq!(stopped(credential_import_step(ImportStage::AwaitSdkLogin, no_key, &ctx)), "登录服务没有返回登录凭证");
}

#[test]
fn import_fetches_the_suite_of_the_player_that_logged_in() {
    let ctx = context("9.4.4.1");
    let mut login = Vec::new();
    integer(&mut login, 1, 42);
    let event = ImportEvent::GameLogin {
        body: login,
        token: Some(b"token".to_vec()),
        request_id: Some(b"server-nonce".to_vec()),
    };
    let r = credential_import_step(ImportStage::AwaitGameLogin, event, &ctx);
    assert_eq!(r.0, ImportStage::AwaitSuite { uid: 42 });
    match r.1 {
        ImportAction::FetchSuite { uid, token, request_id, master } => {
            assert_eq!(uid, 42);
            assert_eq!(token, b"token".to_vec());
            assert_eq!(request_id, suite_request_id("server-nonce"));
            assert_eq!(master, "2026091400000000");
        }
        other => panic!("unexpected {:?}", other),
    }
}

#[test]
fn import_stops_on_a_bad_game_login_answer() {
    let ctx = context("9.4.4.1");
    let mut zero = Vec::new();
    integer(&mut zero, 1, 0);
    let bad_uid = ImportEvent::GameLogin { body: zero, token: Some(b"t".to_vec()), request_id: Some(b"n".to_vec()) };
    assert_eq!(stopped(credential_import_step(ImportStage::AwaitGameLogin, bad_uid, &ctx)), "游戏登录没有返回有效玩家 ID");
    let mut login = Vec::new();
    integer(&mut login, 1, 42);
    let no_token = ImportEvent::GameLogin { body: login.clone(), token: Some(Vec::new()), request_id: Some(b"n".to_vec()) };
    assert_eq!(stopped(credential_import_step(ImportStage::AwaitGameLogin, no_token, &ctx)), "游戏登录没有返回会话凭证");
    let bad_nonce = ImportEvent::GameLogin { body: login.clone(), token: Some(b"t".to_vec()), request_id: Some(vec![b'n', 0x7f]) };
    assert_eq!(stopped(credential_import_step(ImportStage::AwaitGameLogin, bad_nonce, &ctx)), "游戏登录没有返回请求序号");
    let no_nonce = ImportEvent::GameLogin { body: login, token: Some(b"t".to_vec()), request_id: None };
    assert_eq!(stopped(credential_import_step(ImportStage::AwaitGameLogin, no_nonce, &ctx)), "游戏登录没有返回请求序号");
}

#[test]
fn import_stops_on_a_suite_of_another_player() {
    let ctx = context("9.4.4.1");
    let ok = credential_import_step(ImportStage::AwaitSuite { uid: 42 }, ImportEvent::Suite { body: suite(42, 42) }, &ctx);
    assert_eq!(ok.0, ImportStage::Finished { uid: 42 });
    assert!(matches!(ok.1, ImportAction::Finish { uid: 42, .. }));
    let other = credential_import_step(ImportStage::AwaitSuite { uid: 42 }, ImportEvent::Suite { body: suite(43, 42) }, &ctx);
    assert_eq!(stopped(other), "登录账号与返回资料不一致，已停止导入");
    let empty = credential_import_step(ImportStage::AwaitSuite { uid: 42 }, ImportEvent::Suite { body: Vec::new() }, &ctx);
    assert_eq!(stopped(empty), "国服没有返回用户资料");
}

struct Mock {
    channel: AccountChannel,
    wrong_uid: bool,
    missing_token: bool,
    fail_sdk: bool,
    calls: Vec<String>,
}

impl Mock {
    fn new(channel: AccountChannel) -> Self {
        Mock { channel, wrong_uid: false, missing_token: false, fail_sdk: false, calls: Vec::new() }
    }
}

struct Imported {
    game_uid: u64,
    player_id: i64,
    name: String,
    rank: u64,
}

fn no_episodes(_: u64) -> Option<[u64; 2]> {
    None
}

fn no_section(_: &[u8]) -> Result<(), ImportError> {
    Ok(())
}

// Runs a whole import against the mock server, answering each request the
// step asks for, as the program around the library does.
fn import_with(mock: &mut Mock) -> Result<Imported, ImportError> {
    let version = ClientVersion { client: "9.4.4".into(), code: "940400".into(), unity: "2022.3.62f1".into() };
    mock.calls.push("/application".into());
    let mut answer = Vec::new();
    field_string(&mut answer, 1, "9.4.4");
    field_string(&mut answer, 2, "9.4.4.1");
    field_string(&mut answer, 10, "2026091400000000");
    let application = application_versions(&answer, &version)?;
    let ctx = ImportContext {
        request: CredentialImportRequest {
            account: "test@example.invalid".into(),
            password: "sample-password".into(),
            channel: mock.channel,
        },
        version,
        application,
    };
    let mut stage = ImportStage::Start;
    let mut event = ImportEvent::Begin { time: 1 };
    let mut suite_body = Vec::new();
    loop {
        let (next, action) = credential_import_step(stage, event, &ctx);
        stage = next;
        event = match action {
            ImportAction::RequestCipher { form } => {
                mock.calls.push("/api/external/issue/cipher/v3".into());
                assert_eq!(field(&form, "platform"), Some("3"));
                assert_eq!(field(&form, "bd_id"), Some(mock.channel.bd_id()));
                if mock.fail_sdk {
                    return Err(fail("verification required"));
                }
                let der = RsaPublicKey::from(key()).to_public_key_der().unwrap();
                ImportEvent::Cipher { hash: Some("prefix".into()), cipher_key: Some(STANDARD.encode(der.as_ref())), time: 2 }
            }
            ImportAction::SdkLogin { form } => {
                mock.calls.push("/api/external/login/v3".into());
                assert_eq!(field(&form, "user_id"), Some("test@example.invalid"));
                let cipher = STANDARD.decode(field(&form, "pwd").unwrap()).unwrap();
                assert_eq!(key().decrypt(Pkcs1v15Encrypt, &cipher).unwrap(), b"prefixsample-password");
                ImportEvent::SdkLogin { uid: Some("123".into()), access_key: Some("test-access-key".into()), random: [7; 16] }
            }
            ImportAction::GameLogin { request_id, body } => {
                mock.calls.push("/user/login".into());
                assert_eq!(request_id.len(), 32);
                assert_eq!(aes_decrypt_iso10126(&body).unwrap(), login_body("123", "test-access-key", &ctx.version));
                let mut login = Vec::new();
                integer(&mut login, 1, 42);
                let token = if mock.missing_token { None } else { Some(b"test-session-token".to_vec()) };
                ImportEvent::GameLogin { body: login, token, request_id: Some(b"server-nonce".to_vec()) }
            }
            ImportAction::FetchSuite { uid, token, request_id, master } => {
                mock.calls.push(format!("/suite/user/{uid}"));
                assert_eq!(token, b"test-session-token".to_vec());
                assert_eq!(request_id, suite_request_id("server-nonce"));
                assert_eq!(master, "2026091400000000");
                let mut registration = Vec::new();
                integer(&mut registration, 1, if mock.wrong_uid { 43 } else { 42 });
                field_string(&mut registration, 3, "测试玩家");
                let mut data = Vec::new();
                integer(&mut data, 1, 42);
                integer(&mut data, 2, 268);
                let mut user = Vec::new();
                field_bytes(&mut user, 1, &registration);
                field_bytes(&mut user, 2, &data);
                let mut result = Vec::new();
                field_bytes(&mut result, 1, &user);
                suite_body = result.clone();
                ImportEvent::Suite { body: result }
            }
            ImportAction::Finish { uid, name, rank } => {
                let player = suite_user_to_player_config(uid, &suite_body, &no_episodes, no_section, no_section)?;
                return Ok(Imported { game_uid: uid, player_id: player.player_id, name, rank });
            }
            ImportAction::Fail(e) => return Err(e),
        };
    }
}

#[test]
fn android_and_ios_use_one_login_and_only_own_suite() {
    for channel in [AccountChannel::Android, AccountChannel::Ios] {
        let mut mock = Mock::new(channel);
        let result = import_with(&mut mock).unwrap();
        assert_eq!(result.game_uid, 42);
        assert_eq!(result.player_id, 42);
        assert_eq!(result.rank, 268);
        assert_eq!(result.name, "测试玩家");
        assert_eq!(
            mock.calls,
            vec![
                "/application",
                "/api/external/issue/cipher/v3",
                "/api/external/login/v3",
                "/user/login",
                "/suite/user/42"
            ]
        );
    }
}

#[test]
fn different_account_suite_is_never_converted_in_a_whole_import() {
    let mut mock = Mock::new(AccountChannel::Android);
    mock.wrong_uid = true;
    match import_with(&mut mock) {
        Err(ImportError::Account(m)) => assert!(m.contains("不一致")),
        _ => panic!("expected the suite to be refused"),
    }
    assert_eq!(mock.calls.len(), 5);
}

#[test]
fn missing_session_token_stops_before_suite_and_does_not_retry() {
    let mut mock = Mock::new(AccountChannel::Ios);
    mock.missing_token = true;
    assert!(import_with(&mut mock).is_err());
    assert_eq!(mock.calls.len(), 4);
}

#[test]
fn sdk_rejection_stops_without_game_login() {
    let mut mock = Mock::new(AccountChannel::Android);
    mock.fail_sdk = true;
    assert!(import_with(&mut mock).is_err());
    assert_eq!(mock.calls.len(), 2);
}
