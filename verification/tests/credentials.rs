use bangdream_optimize::account::{AccountChannel, ClientVersion};
use bangdream_optimize::credentials::{
    application_versions, check_suite_owner, chars_less, form_insert, login_body, login_player_id,
    sdk_params, sdk_sign, suite_request_id, text_field, to_hex, Form,
};
use bangdream_optimize::protobuf::{field_bytes, field_string, parse_fields, write_varint, ImportError};
use md5::{Digest, Md5};

const SDK_KEY: &str = "0e814339fb45488db2f0a3462fe17690";
const REQUEST_KEY: &str = "44859ad705d454676f9184af633e6e4f";

fn version() -> ClientVersion {
    ClientVersion {
        client: "9.4.4".into(),
        code: "940400".into(),
        unity: "2022.3.62f1".into(),
    }
}

fn integer(bytes: &mut Vec<u8>, field: u64, value: u64) {
    write_varint(bytes, field << 3);
    write_varint(bytes, value);
}

fn form_from(pairs: &[(&str, &str)]) -> Form {
    let mut form = Form { fields: Vec::new() };
    for (k, v) in pairs {
        form_insert(&mut form, k.to_string(), v.to_string());
    }
    form
}

fn account_message<T: std::fmt::Debug>(r: Result<T, ImportError>) -> String {
    match r {
        Err(ImportError::Account(m)) => m,
        other => panic!("expected an account error, got {:?}", other),
    }
}

fn suite(registration_uid: u64, data_uid: u64) -> Vec<u8> {
    let mut registration = Vec::new();
    integer(&mut registration, 1, registration_uid);
    field_string(&mut registration, 3, "测试玩家");
    let mut data = Vec::new();
    integer(&mut data, 1, data_uid);
    integer(&mut data, 2, 268);
    let mut user = Vec::new();
    field_bytes(&mut user, 1, &registration);
    field_bytes(&mut user, 2, &data);
    let mut result = Vec::new();
    field_bytes(&mut result, 1, &user);
    result
}

#[test]
fn sdk_sign_sorts_values_before_encoding_and_skips_excluded_fields() {
    let form = form_from(&[("z", "a+b&中文"), ("a", "123"), ("Token", "ignored")]);
    assert_eq!(
        sdk_sign(&form),
        format!("{:x}", Md5::digest(format!("123a+b&中文{SDK_KEY}")))
    );
}

#[test]
fn forms_keep_names_sorted_and_replace_values() {
    let form = form_from(&[("b", "1"), ("a", "2"), ("b", "3"), ("ab", "4")]);
    let names: Vec<&str> = form.fields.iter().map(|(k, _)| k.as_str()).collect();
    assert_eq!(names, vec!["a", "ab", "b"]);
    assert_eq!(form.fields[2].1, "3");
    assert!(chars_less(&"Z".chars().collect(), &"a".chars().collect()));
    assert!(!chars_less(&"ab".chars().collect(), &"a".chars().collect()));
}

#[test]
fn sdk_params_carry_platform_version_and_time() {
    let form = sdk_params(AccountChannel::Ios, &version(), 1_700_000_000_123);
    let get = |name: &str| {
        form.fields.iter().find(|(k, _)| k == name).map(|(_, v)| v.clone())
    };
    assert_eq!(form.fields.len(), 25);
    assert_eq!(get("platform").as_deref(), Some("3"));
    assert_eq!(get("channel_id").as_deref(), Some("1"));
    assert_eq!(get("bd_id").as_deref(), Some(AccountChannel::Ios.bd_id()));
    assert_eq!(get("app_ver").as_deref(), Some("9.4.4"));
    assert_eq!(get("version_code").as_deref(), Some("940400"));
    assert_eq!(get("timestamp").as_deref(), Some("1700000000123"));
    assert_eq!(get("ad_ext").as_deref(), Some("{\"server_type\":\"0\"}"));
    let names: Vec<&String> = form.fields.iter().map(|(k, _)| k).collect();
    let mut sorted = names.clone();
    sorted.sort();
    assert_eq!(names, sorted);
}

#[test]
fn login_body_encodes_fields_in_order() {
    let body = login_body("123", "key", &version());
    let fields = parse_fields(&body).unwrap();
    assert_eq!(fields.len(), 8);
    assert_eq!(text_field(&fields, 1).as_deref(), Some("123"));
    assert_eq!(text_field(&fields, 3).as_deref(), Some("Android"));
    assert_eq!(text_field(&fields, 6).as_deref(), Some("9.4.4"));
    assert_eq!(text_field(&fields, 8).as_deref(), Some("com.bilibili.star.bili"));
    assert_eq!(text_field(&fields, 9), None);
}

#[test]
fn game_login_must_return_a_positive_player_id() {
    let mut login = Vec::new();
    integer(&mut login, 1, 42);
    assert_eq!(login_player_id(&login).unwrap(), 42);
    let mut zero = Vec::new();
    integer(&mut zero, 1, 0);
    assert_eq!(account_message(login_player_id(&zero)), "游戏登录没有返回有效玩家 ID");
    let mut huge = Vec::new();
    integer(&mut huge, 1, u64::MAX);
    assert!(login_player_id(&huge).is_err());
    assert!(matches!(login_player_id(&[0]), Err(ImportError::Protobuf(_))));
}

#[test]
fn different_account_suite_is_never_converted() {
    let identity = check_suite_owner(&suite(42, 42), 42).unwrap();
    assert_eq!(identity.name, "测试玩家");
    assert_eq!(identity.rank, 268);
    assert!(account_message(check_suite_owner(&suite(43, 42), 42)).contains("不一致"));
    assert!(account_message(check_suite_owner(&suite(42, 43), 42)).contains("不一致"));
    assert_eq!(account_message(check_suite_owner(&[], 42)), "国服没有返回用户资料");
}

#[test]
fn application_answer_must_match_the_client_version() {
    let mut body = Vec::new();
    field_string(&mut body, 1, "9.4.4");
    field_string(&mut body, 2, "9.4.4.1");
    field_string(&mut body, 10, "2026091400000000");
    let application = application_versions(&body, &version()).unwrap();
    assert_eq!(application.data, "9.4.4.1");
    assert_eq!(application.master, "2026091400000000");
    let mut stale = Vec::new();
    field_string(&mut stale, 1, "9.4.3");
    assert_eq!(account_message(application_versions(&stale, &version())), "游戏客户端版本已更新");
    let mut bad_master = Vec::new();
    field_string(&mut bad_master, 1, "9.4.4");
    field_string(&mut bad_master, 2, "9.4.4.1");
    field_string(&mut bad_master, 10, "20260914");
    assert_eq!(account_message(application_versions(&bad_master, &version())), "国服主数据版本格式异常");
}

#[test]
fn suite_request_id_hashes_the_key_and_nonce() {
    assert_eq!(
        suite_request_id("server-nonce"),
        format!("{:x}", Md5::digest(format!("{REQUEST_KEY}server-nonce")))
    );
    assert_eq!(to_hex(&[0x00, 0xab, 0x0f]), "00ab0f");
}
