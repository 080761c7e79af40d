//! The decisions of a credential import, one answer at a time: which request
//! comes next, what it carries, and when the import stops. The caller sends
//! each request and hands the answer back as the next event.
use vstd::prelude::*;
use vstd::string::*;
use crate::account::{fail, ascii_digits, all_ascii_digits, ClientVersion, CredentialImportRequest};
use crate::credentials::{
    form_get, form_insert, form_sorted, hex_lower, login_body, login_body_spec,
    login_player_id, login_player_spec, md5_digest, request_key, sdk_param, sdk_params, suite_check_spec,
    suite_request_id, check_suite_owner, suite_identity_spec, to_hex, failed_as, ApplicationVersion, Failure, Form,
};
use crate::cipher::{aes_encrypt_iso10126, aes_encrypt_iso10126_spec};
use crate::login::{password_field_outcome, sdk_password_field};
use crate::protobuf::ImportError;
use crate::text::{str_chars, string_from_chars, trim, trim_spec};
use crate::request_hint::{ascii_chars, ascii_string};
use vstd::utf8::encode_utf8;

verus! {

/// What an import knows before its first request: the credentials, the client
/// version in use and the versions the application endpoint reported.
pub struct ImportContext {
    pub request: CredentialImportRequest,
    pub version: ClientVersion,
    pub application: ApplicationVersion,
}

/// Where an import stands.
#[derive(Debug, Clone, Copy, PartialEq, Eq, Structural)]
pub enum ImportStage {
    /// Nothing sent yet.
    Start,
    /// The SDK was asked for the password key.
    AwaitCipher,
    /// The SDK login was sent.
    AwaitSdkLogin,
    /// The game login was sent.
    AwaitGameLogin,
    /// The suite of the player who logged in was asked for.
    AwaitSuite { uid: u64 },
    /// The suite belongs to the player; the import can read it.
    Finished { uid: u64 },
    /// The import stopped.
    Failed,
}

/// What came back, or what the import starts with.
#[derive(Debug, Clone)]
pub enum ImportEvent {
    /// The import starts at `time`, in milliseconds.
    Begin { time: u128 },
    /// The SDK's password parameters: the hash prefix and the PEM key, each
    /// `None` where missing; `time` is the time of the next request.
    Cipher { hash: Option<String>, cipher_key: Option<String>, time: u128 },
    /// The SDK login's answer: the account number and the access key, each
    /// `None` where missing; `random` are fresh random bytes for the request id.
    SdkLogin { uid: Option<String>, access_key: Option<String>, random: [u8; 16] },
    /// The game login's answer: its decrypted body, and its `x-token` and
    /// `x-requestid` headers.
    GameLogin { body: Vec<u8>, token: Option<Vec<u8>>, request_id: Option<Vec<u8>> },
    /// The suite's answer.
    Suite { body: Vec<u8> },
}

/// What to do next.
#[derive(Debug)]
pub enum ImportAction {
    /// Ask the SDK for the password key with this form.
    RequestCipher { form: Form },
    /// Log in to the SDK with this form.
    SdkLogin { form: Form },
    /// Send the game login: this encrypted body, under this request id.
    GameLogin { request_id: String, body: Vec<u8> },
    /// Fetch the suite of player `uid` with the session token, the request id
    /// and the master-data version.
    FetchSuite { uid: u64, token: Vec<u8>, request_id: String, master: String },
    /// Read the suite of player `uid`, whose name and rank it gives.
    Finish { uid: u64, name: String, rank: u64 },
    /// Stop with this error.
    Fail(ImportError),
}

/// Which event an import waits for at each stage.
pub open spec fn event_fits(stage: ImportStage, event: ImportEvent) -> bool {
    match stage {
        ImportStage::Start => event is Begin,
        ImportStage::AwaitCipher => event is Cipher,
        ImportStage::AwaitSdkLogin => event is SdkLogin,
        ImportStage::AwaitGameLogin => event is GameLogin,
        ImportStage::AwaitSuite { .. } => event is Suite,
        _ => false,
    }
}

/// Whether a text can stand as an HTTP header value: every character is a tab,
/// visible ASCII or beyond ASCII.
pub open spec fn header_text_valid(s: Seq<char>) -> bool {
    forall|i: int| 0 <= i < s.len() ==> #[trigger] s[i] == '\t' || (32 <= (s[i] as u32) && (s[i] as u32) != 127)
}

/// Whether a header value reads as text: every byte is a tab or visible ASCII.
pub open spec fn header_bytes_visible(b: Seq<u8>) -> bool {
    forall|i: int| 0 <= i < b.len() ==> #[trigger] b[i] == 9 || (32 <= b[i] && b[i] < 127)
}

/// The form of the password-key request: the SDK form with the cipher type.
pub open spec fn cipher_form_value(context: ImportContext, time: u128, k: Seq<char>) -> Option<Seq<char>> {
    if k == "cipher_type"@ { Some("bili_login_rsa"@) } else { sdk_param(context.request.channel, context.version, time, k) }
}

/// The form of the SDK login: the SDK form with the trimmed account and the password field.
pub open spec fn login_form_value(context: ImportContext, time: u128, pwd: Seq<char>, k: Seq<char>) -> Option<Seq<char>> {
    if k == "pwd"@ {
        Some(pwd)
    } else if k == "user_id"@ {
        Some(trim_spec(context.request.account@))
    } else {
        sdk_param(context.request.channel, context.version, time, k)
    }
}

/// The import stopped with `e`.
pub open spec fn stops_with(r: (ImportStage, ImportAction), e: ImportError) -> bool {
    r.0 == ImportStage::Failed && r.1 == ImportAction::Fail(e)
}

/// The import stopped with the account error `m`.
pub open spec fn stops_with_message(r: (ImportStage, ImportAction), m: Seq<char>) -> bool {
    r.0 == ImportStage::Failed && (r.1 matches ImportAction::Fail(ImportError::Account(e)) && e@ == m)
}

/// The import stopped as `f` says.
pub open spec fn stops_as(r: (ImportStage, ImportAction), f: Failure) -> bool {
    r.0 == ImportStage::Failed && (r.1 matches ImportAction::Fail(e) && failed_as(Err::<(), ImportError>(e), f))
}

/// A present, non-empty text.
pub open spec fn present(s: Option<String>) -> bool {
    s matches Some(v) && v@.len() > 0
}

/// What one step of the import does, as `credential_import_step` states it.
pub open spec fn import_step_outcome(stage: ImportStage, event: ImportEvent, context: ImportContext, r: (ImportStage, ImportAction)) -> bool {
    match event {
        ImportEvent::Begin { time } =>
            if !header_text_valid(context.application.data@) {
                stops_with_message(r, "国服数据版本格式异常"@)
            } else {
                r.0 == ImportStage::AwaitCipher && (r.1 matches ImportAction::RequestCipher { form }
                    && form_sorted(form@)
                    && forall|k: Seq<char>| #[trigger] form_get(form@, k) == cipher_form_value(context, time, k))
            },
        ImportEvent::Cipher { hash, cipher_key, time } =>
            if !present(hash) {
                stops_with_message(r, "登录服务没有返回密码加密参数"@)
            } else if !present(cipher_key) {
                stops_with_message(r, "登录服务没有返回密码公钥"@)
            } else {
                exists|field: Result<String, ImportError>|
                    #[trigger] password_field_outcome(cipher_key->Some_0@,
                        encode_utf8(hash->Some_0@) + encode_utf8(context.request.password@), field)
                    && match field {
                        Err(e) => stops_with(r, e),
                        Ok(pwd) => r.0 == ImportStage::AwaitSdkLogin && (r.1 matches ImportAction::SdkLogin { form }
                            && form_sorted(form@)
                            && forall|k: Seq<char>| #[trigger] form_get(form@, k) == login_form_value(context, time, pwd@, k)),
                    }
            },
        ImportEvent::SdkLogin { uid, access_key, random } =>
            if !(uid matches Some(u) && u@.len() > 0 && ascii_digits(u@)) {
                stops_with_message(r, "登录服务没有返回有效账号编号"@)
            } else if !present(access_key) {
                stops_with_message(r, "登录服务没有返回登录凭证"@)
            } else {
                r.0 == ImportStage::AwaitGameLogin && (r.1 matches ImportAction::GameLogin { request_id, body }
                    && request_id@ == hex_lower(random@)
                    && body@ == aes_encrypt_iso10126_spec(
                        login_body_spec(uid->Some_0@, access_key->Some_0@, context.version.client@)))
            },
        ImportEvent::GameLogin { body, token, request_id } =>
            match login_player_spec(body@) {
                Err(f) => stops_as(r, f),
                Ok(uid) =>
                    if !(token matches Some(t) && t@.len() > 0) {
                        stops_with_message(r, "游戏登录没有返回会话凭证"@)
                    } else if !(request_id matches Some(n) && n@.len() > 0 && header_bytes_visible(n@)) {
                        stops_with_message(r, "游戏登录没有返回请求序号"@)
                    } else {
                        r.0 == (ImportStage::AwaitSuite { uid }) && (r.1 matches ImportAction::FetchSuite { uid: u, token: t, request_id: id, master }
                            && u == uid && t@ == token->Some_0@ && master@ == context.application.master@
                            && id@ == hex_lower(md5_digest(encode_utf8(request_key())
                                + encode_utf8(ascii_chars(request_id->Some_0@)))))
                    },
            },
        ImportEvent::Suite { body } => match stage {
            ImportStage::AwaitSuite { uid } => match suite_check_spec(body@, uid) {
                Some(f) => stops_as(r, f),
                None => r.0 == (ImportStage::Finished { uid }) && (r.1 matches ImportAction::Finish { uid: u, name, rank }
                    && u == uid && name@ == suite_identity_spec(body@).0 && rank == suite_identity_spec(body@).1),
            },
            _ => false,
        },
    }
}

fn header_text_ok(s: &str) -> (r: bool)
    ensures
        r == header_text_valid(s@),
{
    let chars = str_chars(s);
    let mut i: usize = 0;
    while i < chars.len()
        invariant
            i <= chars@.len(),
            chars@ == s@,
            forall|j: int| 0 <= j < i ==> #[trigger] chars@[j] == '\t' || (32 <= (chars@[j] as u32) && (chars@[j] as u32) != 127),
        decreases chars@.len() - i,
    {
        let c = chars[i];
        if !(c == '\t' || (32 <= (c as u32) && (c as u32) != 127)) {
            return false;
        }
        i = i + 1;
    }
    true
}

fn header_bytes_ok(b: &[u8]) -> (r: bool)
    ensures
        r == header_bytes_visible(b@),
{
    let mut i: usize = 0;
    while i < b.len()
        invariant
            i <= b@.len(),
            forall|j: int| 0 <= j < i ==> #[trigger] b@[j] == 9 || (32 <= b@[j] && b@[j] < 127),
        decreases b@.len() - i,
    {
        if !(b[i] == 9 || (32 <= b[i] && b[i] < 127)) {
            return false;
        }
        i = i + 1;
    }
    true
}

fn is_present(s: &Option<String>) -> (r: bool)
    ensures
        r == present(*s),
{
    match s {
        Some(v) => v.unicode_len() > 0,
        None => false,
    }
}

/// One step of a credential import: from where the import stands and what came
/// back, where it stands next and what to do. The import asks the SDK for the
/// password key, logs in to the SDK with the encrypted password, logs in to the
/// game with the SDK's account number and access key, and fetches the suite of
/// the player that login names, never any other; it stops on a data version
/// that cannot be sent as a header, a missing or unusable key, an answer
/// without account number, access key, valid player id, session token or
/// request id, and a suite that does not belong to the player.
pub fn credential_import_step(stage: ImportStage, event: ImportEvent, context: &ImportContext) -> (r: (ImportStage, ImportAction))
    requires
        event_fits(stage, event),
        event matches ImportEvent::SdkLogin { uid: Some(u), access_key: Some(k), .. }
            ==> login_body_spec(u@, k@, context.version.client@).len() + 16 <= usize::MAX,
    ensures
        import_step_outcome(stage, event, *context, r),
{
    match event {
        ImportEvent::Begin { time } => {
            if !header_text_ok(context.application.data.as_str()) {
                return (ImportStage::Failed, ImportAction::Fail(fail("国服数据版本格式异常")));
            }
            let mut form = sdk_params(context.request.channel, &context.version, time);
            form_insert(&mut form, "cipher_type".to_owned(), "bili_login_rsa".to_owned());
            proof {
                reveal_strlit("cipher_type");
                reveal_strlit("bili_login_rsa");
            }
            (ImportStage::AwaitCipher, ImportAction::RequestCipher { form })
        },
        ImportEvent::Cipher { hash, cipher_key, time } => {
            if !is_present(&hash) {
                return (ImportStage::Failed, ImportAction::Fail(fail("登录服务没有返回密码加密参数")));
            }
            if !is_present(&cipher_key) {
                return (ImportStage::Failed, ImportAction::Fail(fail("登录服务没有返回密码公钥")));
            }
            let hash = hash.unwrap();
            let cipher_key = cipher_key.unwrap();
            let field = sdk_password_field(cipher_key.as_str(), hash.as_str(), context.request.password.as_str());
            let ghost field_result = field;
            match field {
                Err(e) => (ImportStage::Failed, ImportAction::Fail(e)),
                Ok(pwd) => {
                    let mut form = sdk_params(context.request.channel, &context.version, time);
                    let account = string_from_chars(&trim(&str_chars(context.request.account.as_str())));
                    form_insert(&mut form, "user_id".to_owned(), account);
                    form_insert(&mut form, "pwd".to_owned(), pwd);
                    proof {
                        reveal_strlit("user_id");
                        reveal_strlit("pwd");
                    }
                    (ImportStage::AwaitSdkLogin, ImportAction::SdkLogin { form })
                },
            }
        },
        ImportEvent::SdkLogin { uid, access_key, random } => {
            let uid = match uid {
                Some(u) => if u.unicode_len() > 0 && all_ascii_digits(&str_chars(u.as_str())) {
                    u
                } else {
                    return (ImportStage::Failed, ImportAction::Fail(fail("登录服务没有返回有效账号编号")));
                },
                None => return (ImportStage::Failed, ImportAction::Fail(fail("登录服务没有返回有效账号编号"))),
            };
            if !is_present(&access_key) {
                return (ImportStage::Failed, ImportAction::Fail(fail("登录服务没有返回登录凭证")));
            }
            let access_key = access_key.unwrap();
            let plain = login_body(uid.as_str(), access_key.as_str(), &context.version);
            let body = match aes_encrypt_iso10126(plain.as_slice()) {
                Ok(b) => b,
                Err(e) => return (ImportStage::Failed, ImportAction::Fail(e)),
            };
            let request_id = to_hex(&random);
            (ImportStage::AwaitGameLogin, ImportAction::GameLogin { request_id, body })
        },
        ImportEvent::GameLogin { body, token, request_id } => {
            let uid = match login_player_id(body.as_slice()) {
                Ok(n) => n,
                Err(e) => return (ImportStage::Failed, ImportAction::Fail(e)),
            };
            let token = match token {
                Some(t) => if t.len() > 0 {
                    t
                } else {
                    return (ImportStage::Failed, ImportAction::Fail(fail("游戏登录没有返回会话凭证")));
                },
                None => return (ImportStage::Failed, ImportAction::Fail(fail("游戏登录没有返回会话凭证"))),
            };
            let nonce = match request_id {
                Some(n) => if n.len() > 0 && header_bytes_ok(n.as_slice()) {
                    n
                } else {
                    return (ImportStage::Failed, ImportAction::Fail(fail("游戏登录没有返回请求序号")));
                },
                None => return (ImportStage::Failed, ImportAction::Fail(fail("游戏登录没有返回请求序号"))),
            };
            proof {
                assert forall|i: int| 0 <= i < nonce@.len() implies #[trigger] nonce@[i] < 0x80 by {
                    assert(nonce@[i] == 9 || nonce@[i] < 127);
                }
            }
            let nonce_text = ascii_string(&nonce);
            let request_id = suite_request_id(nonce_text.as_str());
            let master = context.application.master.clone();
            (ImportStage::AwaitSuite { uid }, ImportAction::FetchSuite { uid, token, request_id, master })
        },
        ImportEvent::Suite { body } => {
            let uid = match stage {
                ImportStage::AwaitSuite { uid } => uid,
                _ => 0,
            };
            match check_suite_owner(body.as_slice(), uid) {
                Ok(id) => (ImportStage::Finished { uid }, ImportAction::Finish { uid, name: id.name, rank: id.rank }),
                Err(e) => (ImportStage::Failed, ImportAction::Fail(e)),
            }
        },
    }
}

} // verus!
