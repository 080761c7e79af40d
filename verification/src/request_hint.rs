//! Reading the request id the game server suggests when it rejects one: the reply names
//! a new (or old) 32-digit hexadecimal id after a fixed label.
use vstd::prelude::*;
use crate::text::{string_from_chars, append_str, append_decimal, decimal_digits};
use crate::cipher::{aes_decrypt_iso10126, aes_decrypt_iso10126_spec};
use crate::protobuf::ImportError;

verus! {

/// The UTF-8 bytes of what `String::from_utf8_lossy` makes of a byte string.
pub uninterp spec fn utf8_lossy_bytes(bytes: Seq<u8>) -> Seq<u8>;

/// `String::from_utf8_lossy`, as the bytes of the string it returns. The contract names the
/// result and states what std documents: valid UTF-8 comes back unchanged.
#[verifier::external_body]
fn utf8_lossy(bytes: &[u8]) -> (r: Vec<u8>)
    ensures
        r@ == utf8_lossy_bytes(bytes@),
        vstd::utf8::valid_utf8(bytes@) ==> r@ == bytes@,
{
    String::from_utf8_lossy(bytes).into_owned().into_bytes()
}

/// `needle` occurs in `hay` at `i`.
pub open spec fn occurs_at(hay: Seq<u8>, needle: Seq<u8>, i: int) -> bool {
    0 <= i && i + needle.len() <= hay.len() && hay.subrange(i, i + needle.len()) == needle
}

/// The first occurrence of `needle` in `hay` at or after `from`.
pub open spec fn find_from(hay: Seq<u8>, needle: Seq<u8>, from: int) -> Option<int>
    decreases hay.len() + 1 - from,
{
    if from < 0 || from + needle.len() > hay.len() {
        None
    } else if occurs_at(hay, needle, from) {
        Some(from)
    } else {
        find_from(hay, needle, from + 1)
    }
}

proof fn lemma_find_from_found(hay: Seq<u8>, needle: Seq<u8>, from: int)
    ensures
        find_from(hay, needle, from) matches Some(i) ==> from <= i && occurs_at(hay, needle, i),
    decreases hay.len() + 1 - from,
{
    if !(from < 0 || from + needle.len() > hay.len()) && !occurs_at(hay, needle, from) {
        lemma_find_from_found(hay, needle, from + 1);
    }
}

/// The first position of `needle` in `hay`.
fn find_bytes(hay: &Vec<u8>, needle: &[u8]) -> (r: Option<usize>)
    ensures
        match find_from(hay@, needle@, 0) {
            Some(i) => r == Some(i as usize),
            None => r is None,
        },
{
    let n = hay.len();
    let m = needle.len();
    if m > n {
        return None;
    }
    let mut i: usize = 0;
    while i <= n - m
        invariant
            n == hay@.len(),
            m == needle@.len(),
            m <= n,
            i <= n - m + 1,
            find_from(hay@, needle@, 0) == find_from(hay@, needle@, i as int),
        decreases n - i,
    {
        let mut k: usize = 0;
        let mut same = true;
        while k < m
            invariant
                n == hay@.len(),
                m == needle@.len(),
                i + m <= n,
                k <= m,
                same == (forall|q: int| 0 <= q < k ==> hay@[i + q] == needle@[q]),
            decreases m - k,
        {
            if hay[i + k] != needle[k] {
                same = false;
            }
            k = k + 1;
        }
        proof {
            if same {
                assert(hay@.subrange(i as int, i + m) =~= needle@);
            } else {
                let q = choose|q: int| 0 <= q < m && hay@[i + q] != needle@[q];
                assert(hay@.subrange(i as int, i + m)[q] != needle@[q]);
            }
        }
        if same {
            return Some(i);
        }
        i = i + 1;
    }
    None
}

/// Whether `i` starts a character of `text` (or is its end): std's byte test of UTF-8.
pub open spec fn char_boundary(text: Seq<u8>, i: int) -> bool {
    i == 0 || i == text.len() || (0 < i < text.len() && !(0x80 <= text[i] < 0xc0))
}

/// An ASCII hexadecimal digit.
pub open spec fn hex_digit(b: u8) -> bool {
    (0x30 <= b <= 0x39) || (0x41 <= b <= 0x46) || (0x61 <= b <= 0x66)
}

/// The bytes of "X-Requestid error".
pub open spec fn error_marker() -> Seq<u8> {
    seq![0x58u8, 0x2d, 0x52, 0x65, 0x71, 0x75, 0x65, 0x73, 0x74, 0x69, 0x64, 0x20, 0x65, 0x72, 0x72, 0x6f, 0x72]
}

/// The bytes of "newRequestId:".
pub open spec fn new_id_label() -> Seq<u8> {
    seq![0x6eu8, 0x65, 0x77, 0x52, 0x65, 0x71, 0x75, 0x65, 0x73, 0x74, 0x49, 0x64, 0x3a]
}

/// The bytes of "oldRequestId:".
pub open spec fn old_id_label() -> Seq<u8> {
    seq![0x6fu8, 0x6c, 0x64, 0x52, 0x65, 0x71, 0x75, 0x65, 0x73, 0x74, 0x49, 0x64, 0x3a]
}

/// The 32 bytes after the first `label`: an id when they are hexadecimal, `otherwise`
/// when the label is missing or they are not, and no answer at all when those 32 bytes
/// run past the text or cut a character.
pub open spec fn hint_after(text: Seq<u8>, label: Seq<u8>, otherwise: Option<Seq<u8>>) -> Option<Seq<u8>> {
    match find_from(text, label, 0) {
        None => otherwise,
        Some(idx) => {
            let start = idx + label.len();
            if start + 32 > text.len() || !char_boundary(text, start) || !char_boundary(text, start + 32) {
                None
            } else if forall|q: int| start <= q < start + 32 ==> #[trigger] hex_digit(text[q]) {
                Some(text.subrange(start, start + 32))
            } else {
                otherwise
            }
        },
    }
}

/// The request id a reply suggests: only replies mentioning the request-id error carry one,
/// after the new-id label, else after the old-id label.
pub open spec fn request_id_hint_spec(plain: Seq<u8>) -> Option<Seq<u8>> {
    let text = utf8_lossy_bytes(plain);
    if find_from(text, error_marker(), 0) is None {
        None
    } else {
        hint_after(text, new_id_label(), hint_after(text, old_id_label(), None))
    }
}

fn error_marker_bytes() -> (r: [u8; 17])
    ensures
        r@ == error_marker(),
{
    let r: [u8; 17] = [0x58, 0x2d, 0x52, 0x65, 0x71, 0x75, 0x65, 0x73, 0x74, 0x69, 0x64, 0x20, 0x65, 0x72, 0x72, 0x6f, 0x72];
    proof { assert(r@ =~= error_marker()); }
    r
}

fn new_id_label_bytes() -> (r: [u8; 13])
    ensures
        r@ == new_id_label(),
{
    let r: [u8; 13] = [0x6e, 0x65, 0x77, 0x52, 0x65, 0x71, 0x75, 0x65, 0x73, 0x74, 0x49, 0x64, 0x3a];
    proof { assert(r@ =~= new_id_label()); }
    r
}

fn old_id_label_bytes() -> (r: [u8; 13])
    ensures
        r@ == old_id_label(),
{
    let r: [u8; 13] = [0x6f, 0x6c, 0x64, 0x52, 0x65, 0x71, 0x75, 0x65, 0x73, 0x74, 0x49, 0x64, 0x3a];
    proof { assert(r@ =~= old_id_label()); }
    r
}

fn is_boundary(text: &Vec<u8>, i: usize) -> (r: bool)
    ensures
        r == char_boundary(text@, i as int),
{
    i == 0 || i == text.len() || (i < text.len() && !(0x80 <= text[i] && text[i] < 0xc0))
}

/// The outcome for one label: `Err(())` stops the search with no answer, `Ok(None)` moves on
/// to the next label, `Ok(Some(id))` answers.
fn hint_for_label(text: &Vec<u8>, label: &[u8]) -> (r: Result<Option<Vec<u8>>, ()>)
    ensures
        match r {
            Err(()) => hint_after(text@, label@, Some(seq![])) is None && hint_after(text@, label@, None) is None,
            Ok(None) => forall|otherwise: Option<Seq<u8>>| #[trigger] hint_after(text@, label@, otherwise) == otherwise,
            Ok(Some(id)) => forall|otherwise: Option<Seq<u8>>| #[trigger] hint_after(text@, label@, otherwise) == Some(id@),
        },
{
    let idx = match find_bytes(text, label) {
        Some(i) => i,
        None => return Ok(None),
    };
    proof { lemma_find_from_found(text@, label@, 0); }
    let tl = text.len();
    assert(idx + label@.len() <= tl);
    let start = idx + label.len();
    if start > text.len() || text.len() - start < 32 {
        return Err(());
    }
    let end = start + 32;
    if !is_boundary(text, start) || !is_boundary(text, end) {
        return Err(());
    }
    let mut q: usize = start;
    let mut all_hex = true;
    while q < end
        invariant
            start <= q <= end <= text@.len(),
            all_hex == (forall|p: int| start <= p < q ==> #[trigger] hex_digit(text@[p])),
        decreases end - q,
    {
        let b = text[q];
        let hex = (0x30 <= b && b <= 0x39) || (0x41 <= b && b <= 0x46) || (0x61 <= b && b <= 0x66);
        proof { assert(hex == hex_digit(text@[q as int])); }
        if !hex {
            all_hex = false;
        }
        q = q + 1;
    }
    if !all_hex {
        return Ok(None);
    }
    let mut id: Vec<u8> = Vec::new();
    let mut q: usize = start;
    while q < end
        invariant
            start <= q <= end <= text@.len(),
            id@ =~= text@.subrange(start as int, q as int),
        decreases end - q,
    {
        id.push(text[q]);
        q = q + 1;
    }
    Ok(Some(id))
}

/// Characters of ASCII bytes.
pub open spec fn ascii_chars(bytes: Seq<u8>) -> Seq<char> {
    Seq::new(bytes.len(), |i: int| bytes[i] as char)
}

pub(crate) fn ascii_string(bytes: &Vec<u8>) -> (r: String)
    requires
        forall|i: int| 0 <= i < bytes@.len() ==> #[trigger] bytes@[i] < 0x80,
    ensures
        r@ == ascii_chars(bytes@),
{
    let mut chars: Vec<char> = Vec::new();
    let mut i: usize = 0;
    while i < bytes.len()
        invariant
            i <= bytes@.len(),
            forall|k: int| 0 <= k < bytes@.len() ==> #[trigger] bytes@[k] < 0x80,
            chars@ =~= ascii_chars(bytes@).subrange(0, i as int),
        decreases bytes@.len() - i,
    {
        let b = bytes[i];
        let c = crate::text::char_from_ascii(b as u32);
        chars.push(c);
        i = i + 1;
    }
    string_from_chars(&chars)
}

/// The request id a server reply suggests, if it carries one.
pub fn request_id_hint(plain: &[u8]) -> (r: Option<String>)
    ensures
        match request_id_hint_spec(plain@) {
            Some(id) => r matches Some(s) && s@ == ascii_chars(id),
            None => r is None,
        },
{
    let text = utf8_lossy(plain);
    let marker = error_marker_bytes();
    if find_bytes(&text, marker.as_slice()).is_none() {
        return None;
    }
    let new_label = new_id_label_bytes();
    let old_label = old_id_label_bytes();
    let found = match hint_for_label(&text, new_label.as_slice()) {
        Err(()) => return None,
        Ok(Some(id)) => id,
        Ok(None) => match hint_for_label(&text, old_label.as_slice()) {
            Err(()) => return None,
            Ok(Some(id)) => id,
            Ok(None) => return None,
        },
    };
    proof {
        assert forall|i: int| 0 <= i < found@.len() implies #[trigger] found@[i] < 0x80 by {
            assert(hex_digit(found@[i]));
        }
    }
    Some(ascii_string(&found))
}

/// How many times the suite of a player is asked for before the import gives up.
pub const SUITE_FETCH_ATTEMPTS: u32 = 3;

/// What to do after one answer to a suite request.
#[derive(Debug)]
pub enum SuiteFetchDecision {
    /// Ask again under the request id the server suggested.
    Retry { request_id: String },
    /// The decrypted suite.
    Done { plain: Vec<u8> },
    /// Stop with this error.
    Fail(ImportError),
}

/// The context of a failed suite request for player `user_id`.
pub open spec fn suite_failure_context(user_id: u64) -> Seq<char> {
    "GET /suite/user/"@ + decimal_digits(user_id as nat) + " failed"@
}

/// The error when every attempt was answered with a new request id.
pub open spec fn retry_exhausted_message(last_len: nat) -> Seq<char> {
    "suite user request-id retry exhausted; last response len="@ + decimal_digits(last_len)
}

/// What `suite_fetch_step` decides for the answer to attempt `attempt` (from 0).
pub open spec fn suite_fetch_outcome(attempt: u32, status: u16, body: Seq<u8>, user_id: u64, r: SuiteFetchDecision) -> bool {
    match aes_decrypt_iso10126_spec(body) {
        Err(m) => r matches SuiteFetchDecision::Fail(ImportError::Crypto(e)) && e@ == m,
        Ok(plain) => match request_id_hint_spec(plain) {
            Some(id) => if attempt + 1 < SUITE_FETCH_ATTEMPTS {
                r matches SuiteFetchDecision::Retry { request_id } && request_id@ == ascii_chars(id)
            } else {
                r matches SuiteFetchDecision::Fail(ImportError::Protobuf(e)) && e@ == retry_exhausted_message(plain.len())
            },
            None => if !(200 <= status <= 299) {
                r matches SuiteFetchDecision::Fail(ImportError::HttpStatus { status: s, context })
                    && s == status && context@ == suite_failure_context(user_id)
            } else {
                r matches SuiteFetchDecision::Done { plain: p } && p@ == plain
            },
        },
    }
}

/// Decides on one answer to a suite request: the body is decrypted first; a
/// reply that suggests a request id is asked again under it, until the last
/// attempt, which gives up; otherwise a status outside 2xx fails and a
/// successful one gives the suite.
pub fn suite_fetch_step(attempt: u32, status: u16, body: &[u8], user_id: u64) -> (r: SuiteFetchDecision)
    requires
        attempt < SUITE_FETCH_ATTEMPTS,
    ensures
        suite_fetch_outcome(attempt, status, body@, user_id, r),
{
    let plain = match aes_decrypt_iso10126(body) {
        Ok(p) => p,
        Err(e) => return SuiteFetchDecision::Fail(e),
    };
    match request_id_hint(plain.as_slice()) {
        Some(request_id) => {
            if attempt + 1 < SUITE_FETCH_ATTEMPTS {
                SuiteFetchDecision::Retry { request_id }
            } else {
                let mut message: Vec<char> = Vec::new();
                append_str(&mut message, "suite user request-id retry exhausted; last response len=");
                append_decimal(&mut message, plain.len() as u64);
                SuiteFetchDecision::Fail(ImportError::Protobuf(string_from_chars(&message)))
            }
        },
        None => {
            if !(200 <= status && status <= 299) {
                let mut context: Vec<char> = Vec::new();
                append_str(&mut context, "GET /suite/user/");
                append_decimal(&mut context, user_id);
                append_str(&mut context, " failed");
                SuiteFetchDecision::Fail(ImportError::HttpStatus { status, context: string_from_chars(&context) })
            } else {
                SuiteFetchDecision::Done { plain }
            }
        },
    }
}

} // verus!
