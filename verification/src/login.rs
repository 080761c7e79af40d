//! The password field of the SDK login: the PEM key the login service hands
//! out is stripped to its base64 body, decoded and parsed as an RSA public key,
//! and the hash prefix followed by the password is encrypted with it.
use vstd::prelude::*;
use vstd::string::*;
use base64::Engine;
use rsa::pkcs8::DecodePublicKey;
use rsa::traits::PublicKeyParts;
use crate::text::{str_chars, string_from_chars, is_whitespace, is_whitespace_spec};
use crate::protobuf::ImportError;
use crate::account::fail;
use crate::credentials::push_bytes;
use crate::manifest::account_err;

verus! {

/// `s` with every occurrence of `pat` taken out, matched from the left and
/// without overlap, as `str::replace(pat, "")` does.
pub open spec fn remove_all(s: Seq<char>, pat: Seq<char>) -> Seq<char>
    decreases s.len(),
{
    if s.len() == 0 {
        s
    } else if 0 < pat.len() <= s.len() && s.subrange(0, pat.len() as int) == pat {
        remove_all(s.subrange(pat.len() as int, s.len() as int), pat)
    } else {
        seq![s[0]] + remove_all(s.subrange(1, s.len() as int), pat)
    }
}

/// `s` without its white-space characters.
pub open spec fn without_whitespace(s: Seq<char>) -> Seq<char>
    decreases s.len(),
{
    if s.len() == 0 {
        s
    } else {
        let rest = without_whitespace(s.drop_last());
        if is_whitespace_spec(s.last()) { rest } else { rest.push(s.last()) }
    }
}

/// The line that opens a PEM public key.
pub open spec fn pem_begin() -> Seq<char> {
    "-----BEGIN PUBLIC KEY-----"@
}

/// The line that closes a PEM public key.
pub open spec fn pem_end() -> Seq<char> {
    "-----END PUBLIC KEY-----"@
}

/// The base64 body of a PEM public key: both marker lines taken out, then
/// every white-space character.
pub open spec fn pem_body_spec(pem: Seq<char>) -> Seq<char> {
    without_whitespace(remove_all(remove_all(pem, pem_begin()), pem_end()))
}

/// Whether `pat` occurs in `s` at `at`.
fn occurs_at(s: &Vec<char>, at: usize, pat: &Vec<char>) -> (r: bool)
    requires
        at <= s@.len(),
    ensures
        r == (pat@.len() <= s@.len() - at && s@.subrange(at as int, at + pat@.len()) == pat@),
{
    if pat.len() > s.len() - at {
        return false;
    }
    let mut j: usize = 0;
    while j < pat.len()
        invariant
            j <= pat@.len(),
            at + pat@.len() <= s@.len(),
            s@.len() == s.len(),
            forall|k: int| 0 <= k < j ==> s@[at + k] == pat@[k],
        decreases pat@.len() - j,
    {
        if s[at + j] != pat[j] {
            proof {
                assert(s@.subrange(at as int, at + pat@.len())[j as int] != pat@[j as int]);
            }
            return false;
        }
        j = j + 1;
    }
    proof {
        assert(s@.subrange(at as int, at + pat@.len()) =~= pat@);
    }
    true
}

proof fn lemma_remove_all_step(s: Seq<char>, i: int, pat: Seq<char>)
    requires
        0 <= i < s.len(),
    ensures
        (0 < pat.len() <= s.len() - i && s.subrange(i, i + pat.len()) == pat) ==>
            remove_all(s.subrange(i, s.len() as int), pat)
                == remove_all(s.subrange(i + pat.len(), s.len() as int), pat),
        !(0 < pat.len() <= s.len() - i && s.subrange(i, i + pat.len()) == pat) ==>
            remove_all(s.subrange(i, s.len() as int), pat)
                == seq![s[i]] + remove_all(s.subrange(i + 1, s.len() as int), pat),
{
    let t = s.subrange(i, s.len() as int);
    assert(t.subrange(0, pat.len() as int) =~= s.subrange(i, i + pat.len()) || pat.len() > t.len());
    if 0 < pat.len() <= s.len() - i {
        assert(t.subrange(0, pat.len() as int) =~= s.subrange(i, i + pat.len()));
        assert(t.subrange(pat.len() as int, t.len() as int) =~= s.subrange(i + pat.len(), s.len() as int));
    }
    assert(t.subrange(1, t.len() as int) =~= s.subrange(i + 1, s.len() as int));
}

/// `s` with every occurrence of `pat` taken out, from the left.
fn remove_all_of(s: &Vec<char>, pat: &Vec<char>) -> (r: Vec<char>)
    ensures
        r@ == remove_all(s@, pat@),
{
    let mut out: Vec<char> = Vec::new();
    let mut i: usize = 0;
    proof {
        assert(s@.subrange(0, s@.len() as int) =~= s@);
        assert(out@ + remove_all(s@, pat@) =~= remove_all(s@, pat@));
    }
    while i < s.len()
        invariant
            i <= s@.len(),
            out@ + remove_all(s@.subrange(i as int, s@.len() as int), pat@) == remove_all(s@, pat@),
        decreases s@.len() - i,
    {
        proof {
            lemma_remove_all_step(s@, i as int, pat@);
        }
        if pat.len() > 0 && occurs_at(s, i, pat) {
            i = i + pat.len();
        } else {
            let ghost before = out@;
            out.push(s[i]);
            proof {
                assert(before + (seq![s@[i as int]] + remove_all(s@.subrange(i + 1, s@.len() as int), pat@))
                    =~= out@ + remove_all(s@.subrange(i + 1, s@.len() as int), pat@));
            }
            i = i + 1;
        }
    }
    proof {
        assert(s@.subrange(i as int, s@.len() as int) =~= Seq::<char>::empty());
        assert(out@ + remove_all(Seq::<char>::empty(), pat@) =~= out@);
    }
    out
}

/// `s` without its white-space characters.
fn drop_whitespace(s: &Vec<char>) -> (r: Vec<char>)
    ensures
        r@ == without_whitespace(s@),
{
    let mut out: Vec<char> = Vec::new();
    let mut i: usize = 0;
    while i < s.len()
        invariant
            i <= s@.len(),
            out@ == without_whitespace(s@.subrange(0, i as int)),
        decreases s@.len() - i,
    {
        proof {
            assert(s@.subrange(0, i + 1).drop_last() =~= s@.subrange(0, i as int));
        }
        if !is_whitespace(s[i]) {
            out.push(s[i]);
        }
        i = i + 1;
    }
    proof {
        assert(s@.subrange(0, s@.len() as int) =~= s@);
    }
    out
}

/// The base64 body of a PEM public key.
pub fn pem_body(pem: &str) -> (r: String)
    ensures
        r@ == pem_body_spec(pem@),
{
    let begin = str_chars("-----BEGIN PUBLIC KEY-----");
    let end = str_chars("-----END PUBLIC KEY-----");
    let without_begin = remove_all_of(&str_chars(pem), &begin);
    let without_end = remove_all_of(&without_begin, &end);
    string_from_chars(&drop_whitespace(&without_end))
}

/// What the `base64` crate's `STANDARD` engine (the standard alphabet, padded)
/// decodes a text to; `None` where it refuses the text.
pub uninterp spec fn base64_decoded(text: Seq<char>) -> Option<Seq<u8>>;

/// What the `base64` crate's `STANDARD` engine encodes some bytes to.
pub uninterp spec fn base64_encoded(bytes: Seq<u8>) -> Seq<char>;

/// The length in bytes of the modulus of the RSA public key that a DER
/// `SubjectPublicKeyInfo` holds; `None` where the bytes hold no such key.
pub uninterp spec fn public_key_modulus_bytes(der: Seq<u8>) -> Option<nat>;

/// `base64::engine::general_purpose::STANDARD.decode`: the bytes a base64 text
/// stands for, or `None` where the text is no valid encoding.
#[verifier::external_body]
fn base64_decode(text: &str) -> (r: Option<Vec<u8>>)
    ensures
        r matches Some(b) ==> base64_decoded(text@) == Some(b@),
        r is None ==> base64_decoded(text@) is None,
{
    base64::engine::general_purpose::STANDARD.decode(text).ok()
}

/// `base64::engine::general_purpose::STANDARD.encode`: the padded base64 text
/// of some bytes. It panics only where the text's length overflows `usize`,
/// which the bound on the input rules out.
#[verifier::external_body]
fn base64_encode(bytes: &[u8]) -> (r: String)
    requires
        bytes@.len() <= usize::MAX / 2,
    ensures
        r@ == base64_encoded(bytes@),
{
    base64::engine::general_purpose::STANDARD.encode(bytes)
}

#[verifier::external_type_specification]
#[verifier::external_body]
pub struct ExRsaPublicKey(rsa::RsaPublicKey);

/// A parsed RSA public key together with the length of its modulus in bytes
/// and the DER bytes it was read from.
struct RsaKey {
    key: rsa::RsaPublicKey,
    size: usize,
    der: Ghost<Seq<u8>>,
}

/// The raw RSA public-key operation of the key that a DER
/// `SubjectPublicKeyInfo` holds, applied to a block: the block read as a
/// big-endian number, raised to the public exponent modulo the modulus, and
/// written back big-endian in the modulus's length.
pub uninterp spec fn rsa_public_op(der: Seq<u8>, block: Seq<u8>) -> Seq<u8>;

/// The PKCS#1 v1.5 encryption block of a message: 0x00, 0x02, the padding
/// bytes, 0x00, then the message.
pub open spec fn pkcs1v15_block(ps: Seq<u8>, msg: Seq<u8>) -> Seq<u8> {
    seq![0u8, 2u8] + ps + seq![0u8] + msg
}

/// `ps` is valid PKCS#1 v1.5 padding for `msg` under a modulus of `k` bytes:
/// non-zero bytes that fill the block to the modulus's length.
pub open spec fn pkcs1v15_padding(ps: Seq<u8>, k: nat, msg: Seq<u8>) -> bool {
    &&& ps.len() + 3 + msg.len() == k
    &&& forall|i: int| 0 <= i < ps.len() ==> #[trigger] ps[i] != 0
}

/// `rsa::RsaPublicKey::from_public_key_der`, with the key's modulus length
/// from `PublicKeyParts::size`. A key that parses has passed `RsaPublicKey::new`,
/// whose checks bound the modulus to 4096 bits and make it odd and larger
/// than the public exponent, which is at least 2; so its length is between 1
/// and 512 bytes.
#[verifier::external_body]
fn rsa_key_from_der(der: &[u8]) -> (r: Option<RsaKey>)
    ensures
        r matches Some(k) ==> public_key_modulus_bytes(der@) == Some(k.size as nat),
        r matches Some(k) ==> 1 <= k.size <= 512,
        r matches Some(k) ==> k.der@ == der@,
        r is None ==> public_key_modulus_bytes(der@) is None,
{
    match rsa::RsaPublicKey::from_public_key_der(der) {
        Ok(key) => Some(RsaKey { size: key.size(), key, der: Ghost(der@) }),
        Err(_) => None,
    }
}

/// `rsa::RsaPublicKey::encrypt` with `Pkcs1v15Encrypt` and the operating
/// system's random source: PKCS#1 v1.5 padding with random bytes, then the
/// RSA operation. It fails exactly when the message is longer than the
/// modulus less 11 bytes; otherwise the ciphertext has the modulus's length
/// and is the RSA operation on the block 0x00 0x02, non-zero padding bytes,
/// 0x00, message. Which padding bytes were drawn is left open: they are
/// random. The random source panics only where the operating system cannot
/// give random bytes.
#[verifier::external_body]
fn rsa_encrypt_pkcs1v15(key: &RsaKey, msg: &[u8]) -> (r: Option<Vec<u8>>)
    ensures
        r is Some <==> msg@.len() + 11 <= key.size,
        r matches Some(c) ==> c@.len() == key.size && exists|ps: Seq<u8>|
            #![trigger pkcs1v15_padding(ps, key.size as nat, msg@)]
            pkcs1v15_padding(ps, key.size as nat, msg@) && c@ == rsa_public_op(key.der@, pkcs1v15_block(ps, msg@)),
{
    key.key.encrypt(&mut rand::rngs::OsRng, rsa::Pkcs1v15Encrypt, msg).ok()
}

/// The message the login service answers when its public key is unusable.
pub open spec fn key_format_message() -> Seq<char> {
    "登录服务的密码公钥格式异常"@
}

/// The message for a password too long to encrypt under the key.
pub open spec fn password_length_message() -> Seq<char> {
    "密码加密失败，请检查密码长度"@
}

/// What `sdk_password_field` answers: the key-format error where the PEM body
/// is no base64 or holds no RSA public key; the length error where the hash
/// prefix and the password together exceed the modulus less 11 bytes; else
/// the base64 text of the RSA operation on the PKCS#1 v1.5 block of `message`
/// with some valid padding.
pub open spec fn password_field_outcome(pem: Seq<char>, message: Seq<u8>, r: Result<String, ImportError>) -> bool {
    match base64_decoded(pem_body_spec(pem)) {
        None => account_err(r, key_format_message()),
        Some(der) => match public_key_modulus_bytes(der) {
            None => account_err(r, key_format_message()),
            Some(k) => if message.len() + 11 > k {
                account_err(r, password_length_message())
            } else {
                r matches Ok(s) && exists|ps: Seq<u8>|
                    #![trigger pkcs1v15_padding(ps, k, message)]
                    pkcs1v15_padding(ps, k, message)
                        && s@ == base64_encoded(rsa_public_op(der, pkcs1v15_block(ps, message)))
            },
        },
    }
}

/// The `pwd` field of the SDK login form: the hash prefix followed by the
/// password, encrypted under the login service's PEM public key and encoded
/// in base64.
pub fn sdk_password_field(cipher_key_pem: &str, hash_prefix: &str, password: &str) -> (r: Result<String, ImportError>)
    ensures
        password_field_outcome(cipher_key_pem@, hash_prefix.spec_bytes() + password.spec_bytes(), r),
{
    let body = pem_body(cipher_key_pem);
    let der = match base64_decode(body.as_str()) {
        Some(der) => der,
        None => return Err(fail("登录服务的密码公钥格式异常")),
    };
    let key = match rsa_key_from_der(der.as_slice()) {
        Some(key) => key,
        None => return Err(fail("登录服务的密码公钥格式异常")),
    };
    let mut message: Vec<u8> = Vec::new();
    push_bytes(&mut message, hash_prefix.as_bytes());
    push_bytes(&mut message, password.as_bytes());
    match rsa_encrypt_pkcs1v15(&key, message.as_slice()) {
        Some(ct) => {
            let text = base64_encode(ct.as_slice());
            Ok(text)
        },
        None => Err(fail("密码加密失败，请检查密码长度")),
    }
}

} // verus!
