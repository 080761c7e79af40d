//! User feedback: validating attachments and submissions, the e-mail body, and a
//! per-client rate limiter over a sliding window.
use vstd::prelude::*;
use crate::text::{
    append_chars, append_decimal, append_str, ascii_lower, ascii_lower_seq, chars_eq_str,
    decimal_digits, is_control, is_control_spec, parse_unsigned, parse_unsigned_spec, str_chars,
    string_from_chars, trim, trim_spec,
};

verus! {

/// Longest category, in characters.
pub const MAX_CATEGORY_CHARS: usize = 32;
/// Longest subject, in characters.
pub const MAX_SUBJECT_CHARS: usize = 120;
/// Longest content, in characters.
pub const MAX_CONTENT_CHARS: usize = 10_000;
/// Longest context value kept, in characters.
pub const MAX_CONTEXT_CHARS: usize = 80;
/// Longest user agent kept, in characters.
pub const MAX_USER_AGENT_CHARS: usize = 512;
/// Most attachments per submission.
pub const MAX_ATTACHMENT_COUNT: usize = 3;
/// Largest attachment, in bytes.
pub const MAX_ATTACHMENT_BYTES: usize = 5 * 1024 * 1024;
/// Largest total of attachments, in bytes.
pub const MAX_TOTAL_ATTACHMENT_BYTES: usize = 10 * 1024 * 1024;
/// Longest attachment file name, in characters.
pub const MAX_FILE_NAME_CHARS: usize = 120;

/// A validated attachment.
#[derive(Debug, Clone, PartialEq, Eq)]
pub struct FeedbackAttachment {
    pub file_name: String,
    pub content_type: &'static str,
    pub bytes: Vec<u8>,
}

/// Position of the last character among the first `k` that is `a` or `b`, -1 if none.
pub open spec fn last_index_of(s: Seq<char>, a: char, b: char, k: int) -> int
    decreases k,
{
    if k <= 0 {
        -1
    } else if s[k - 1] == a || s[k - 1] == b {
        k - 1
    } else {
        last_index_of(s, a, b, k - 1)
    }
}

proof fn lemma_last_index_of_bounds(s: Seq<char>, a: char, b: char, k: int)
    requires
        0 <= k <= s.len(),
    ensures
        -1 <= last_index_of(s, a, b, k) < k,
        last_index_of(s, a, b, k) >= 0 ==> (s[last_index_of(s, a, b, k)] == a || s[last_index_of(s, a, b, k)] == b),
    decreases k,
{
    if k > 0 && !(s[k - 1] == a || s[k - 1] == b) {
        lemma_last_index_of_bounds(s, a, b, k - 1);
    }
}

fn find_last_of(s: &Vec<char>, a: char, b: char) -> (r: Option<usize>)
    ensures
        match r {
            Some(i) => last_index_of(s@, a, b, s@.len() as int) == i as int,
            None => last_index_of(s@, a, b, s@.len() as int) == -1,
        },
{
    let mut k: usize = s.len();
    while k > 0
        invariant
            k <= s@.len(),
            last_index_of(s@, a, b, s@.len() as int) == last_index_of(s@, a, b, k as int),
        decreases k,
    {
        if s[k - 1] == a || s[k - 1] == b {
            return Some(k - 1);
        }
        k = k - 1;
    }
    None
}

/// The characters after the last `a` or `b`; all of them if there is none.
pub open spec fn after_last(s: Seq<char>, a: char, b: char) -> Seq<char> {
    s.subrange(last_index_of(s, a, b, s.len() as int) + 1, s.len() as int)
}

fn chars_after(s: &Vec<char>, start: usize) -> (r: Vec<char>)
    requires
        start <= s@.len(),
    ensures
        r@ == s@.subrange(start as int, s@.len() as int),
{
    let mut out: Vec<char> = Vec::new();
    let mut i = start;
    while i < s.len()
        invariant
            start <= i <= s@.len(),
            out@ =~= s@.subrange(start as int, i as int),
        decreases s@.len() - i,
    {
        out.push(s[i]);
        i = i + 1;
    }
    out
}

/// Some character is a control character.
pub open spec fn has_control(s: Seq<char>) -> bool {
    exists|i: int| 0 <= i < s.len() && #[trigger] is_control_spec(s[i])
}

/// The file name kept for an attachment: the part after the last `/` or `\`, trimmed,
/// non-empty, free of control characters and at most 120 characters long.
pub open spec fn sanitize_file_name_spec(file_name: Seq<char>) -> Result<Seq<char>, Seq<char>> {
    let name = trim_spec(after_last(file_name, '/', '\\'));
    if name.len() == 0 {
        Err("附件文件名不能为空"@)
    } else if has_control(name) {
        Err("附件文件名包含无效字符"@)
    } else if name.len() > MAX_FILE_NAME_CHARS {
        Err("附件文件名不能超过 120 个字符"@)
    } else {
        Ok(name)
    }
}

/// Keeps the last path component of an attachment's name and checks it.
pub fn sanitize_file_name(file_name: &str) -> (r: Result<String, String>)
    ensures
        match sanitize_file_name_spec(file_name@) {
            Ok(name) => r matches Ok(s) && s@ == name,
            Err(m) => r matches Err(e) && e@ == m,
        },
{
    let chars = str_chars(file_name);
    proof { lemma_last_index_of_bounds(chars@, '/', '\\', chars@.len() as int); }
    let start = match find_last_of(&chars, '/', '\\') {
        Some(i) => i + 1,
        None => 0,
    };
    let base = chars_after(&chars, start);
    let name = trim(&base);
    if name.len() == 0 {
        proof { reveal_strlit("附件文件名不能为空"); }
        return Err("附件文件名不能为空".to_owned());
    }
    let ghost expected = trim_spec(after_last(file_name@, '/', '\\'));
    proof {
        assert(chars@.subrange(start as int, chars@.len() as int) == after_last(file_name@, '/', '\\'));
    }
    let mut i: usize = 0;
    while i < name.len()
        invariant
            i <= name@.len(),
            name@ == expected,
            expected == trim_spec(after_last(file_name@, '/', '\\')),
            name@.len() > 0,
            forall|k: int| 0 <= k < i ==> !#[trigger] is_control_spec(name@[k]),
        decreases name@.len() - i,
    {
        if is_control(name[i]) {
            proof {
                reveal_strlit("附件文件名包含无效字符");
                assert(is_control_spec(name@[i as int]));
            }
            return Err("附件文件名包含无效字符".to_owned());
        }
        i = i + 1;
    }
    if name.len() > MAX_FILE_NAME_CHARS {
        proof { reveal_strlit("附件文件名不能超过 120 个字符"); }
        return Err("附件文件名不能超过 120 个字符".to_owned());
    }
    Ok(string_from_chars(&name))
}

/// The content type for a lower-case file extension.
pub open spec fn content_type_for(ext: Seq<char>) -> Option<Seq<char>> {
    if ext == "png"@ {
        Some("image/png"@)
    } else if ext == "jpg"@ || ext == "jpeg"@ {
        Some("image/jpeg"@)
    } else if ext == "gif"@ {
        Some("image/gif"@)
    } else if ext == "webp"@ {
        Some("image/webp"@)
    } else if ext == "txt"@ || ext == "log"@ {
        Some("text/plain"@)
    } else if ext == "json"@ {
        Some("application/json"@)
    } else if ext == "zip"@ {
        Some("application/zip"@)
    } else if ext == "pdf"@ {
        Some("application/pdf"@)
    } else {
        None
    }
}

/// The content type of an attachment, by the ASCII lower case of what follows its last dot;
/// none without a dot or for an unsupported extension.
pub open spec fn attachment_content_type_spec(file_name: Seq<char>) -> Option<Seq<char>> {
    let dot = last_index_of(file_name, '.', '.', file_name.len() as int);
    if dot < 0 {
        None
    } else {
        content_type_for(ascii_lower_seq(file_name.subrange(dot + 1, file_name.len() as int)))
    }
}

fn lower_chars(s: &Vec<char>) -> (r: Vec<char>)
    ensures
        r@ == ascii_lower_seq(s@),
{
    let mut out: Vec<char> = Vec::new();
    let mut i: usize = 0;
    while i < s.len()
        invariant
            i <= s@.len(),
            out@ =~= ascii_lower_seq(s@).subrange(0, i as int),
        decreases s@.len() - i,
    {
        out.push(ascii_lower(s[i]));
        i = i + 1;
    }
    out
}

/// The content type an attachment is sent with, if its extension is supported.
pub fn attachment_content_type(file_name: &str) -> (r: Option<&'static str>)
    ensures
        match attachment_content_type_spec(file_name@) {
            Some(t) => r matches Some(s) && s@ == t,
            None => r is None,
        },
{
    let chars = str_chars(file_name);
    proof { lemma_last_index_of_bounds(chars@, '.', '.', chars@.len() as int); }
    let dot = match find_last_of(&chars, '.', '.') {
        Some(i) => i,
        None => return None,
    };
    assert(dot < chars.len());
    let ext = lower_chars(&chars_after(&chars, dot + 1));
    proof {
        reveal_strlit("png");
        reveal_strlit("jpg");
        reveal_strlit("jpeg");
        reveal_strlit("gif");
        reveal_strlit("webp");
        reveal_strlit("txt");
        reveal_strlit("log");
        reveal_strlit("json");
        reveal_strlit("zip");
        reveal_strlit("pdf");
    }
    if chars_eq_str(&ext, "png") {
        Some("image/png")
    } else if chars_eq_str(&ext, "jpg") || chars_eq_str(&ext, "jpeg") {
        Some("image/jpeg")
    } else if chars_eq_str(&ext, "gif") {
        Some("image/gif")
    } else if chars_eq_str(&ext, "webp") {
        Some("image/webp")
    } else if chars_eq_str(&ext, "txt") || chars_eq_str(&ext, "log") {
        Some("text/plain")
    } else if chars_eq_str(&ext, "json") {
        Some("application/json")
    } else if chars_eq_str(&ext, "zip") {
        Some("application/zip")
    } else if chars_eq_str(&ext, "pdf") {
        Some("application/pdf")
    } else {
        None
    }
}

/// The attachment check: non-empty, at most 5 MiB, a usable file name with a supported type.
pub open spec fn attachment_validation(file_name: Seq<char>, bytes: Seq<u8>) -> Result<(Seq<char>, Seq<char>), Seq<char>> {
    if bytes.len() == 0 {
        Err("附件不能为空"@)
    } else if bytes.len() > MAX_ATTACHMENT_BYTES {
        Err("单个附件不能超过 5 MiB"@)
    } else {
        match sanitize_file_name_spec(file_name) {
            Err(m) => Err(m),
            Ok(name) => match attachment_content_type_spec(name) {
                None => Err("不支持的附件类型："@ + name),
                Some(t) => Ok((name, t)),
            },
        }
    }
}

impl FeedbackAttachment {
    /// Checks an uploaded attachment and keeps its sanitized name and content type.
    pub fn validate(file_name: Option<&str>, bytes: Vec<u8>) -> (r: Result<Self, String>)
        ensures
            match attachment_validation(match file_name { Some(n) => n@, None => Seq::empty() }, bytes@) {
                Ok((name, t)) => r matches Ok(a) && a.file_name@ == name && a.content_type@ == t && a.bytes@ == bytes@,
                Err(m) => r matches Err(e) && e@ == m,
            },
    {
        if bytes.len() == 0 {
            proof { reveal_strlit("附件不能为空"); }
            return Err("附件不能为空".to_owned());
        }
        if bytes.len() > MAX_ATTACHMENT_BYTES {
            proof { reveal_strlit("单个附件不能超过 5 MiB"); }
            return Err("单个附件不能超过 5 MiB".to_owned());
        }
        let raw: &str = match file_name {
            Some(n) => n,
            None => "",
        };
        proof { reveal_strlit(""); }
        let name = match sanitize_file_name(raw) {
            Ok(n) => n,
            Err(e) => return Err(e),
        };
        let content_type = match attachment_content_type(name.as_str()) {
            Some(t) => t,
            None => {
                let mut message = str_chars("不支持的附件类型：");
                append_str(&mut message, name.as_str());
                return Err(string_from_chars(&message));
            },
        };
        Ok(FeedbackAttachment { file_name: name, content_type, bytes })
    }
}

/// Total bytes of the attachments.
pub open spec fn total_attachment_bytes(attachments: Seq<FeedbackAttachment>, k: int) -> int
    decreases k,
{
    if k <= 0 { 0 } else { total_attachment_bytes(attachments, k - 1) + attachments[k - 1].bytes@.len() }
}

/// Checks the whole set of attachments: at most three, at most 10 MiB together.
pub fn validate_attachment_set(attachments: &[FeedbackAttachment]) -> (r: Result<(), String>)
    ensures
        attachments@.len() > MAX_ATTACHMENT_COUNT ==> (r matches Err(e) && e@ == "最多只能上传 3 个附件"@),
        attachments@.len() <= MAX_ATTACHMENT_COUNT
            && total_attachment_bytes(attachments@, attachments@.len() as int) > MAX_TOTAL_ATTACHMENT_BYTES
            ==> (r matches Err(e) && e@ == "附件总大小不能超过 10 MiB"@),
        attachments@.len() <= MAX_ATTACHMENT_COUNT
            && total_attachment_bytes(attachments@, attachments@.len() as int) <= MAX_TOTAL_ATTACHMENT_BYTES
            ==> r is Ok,
{
    if attachments.len() > MAX_ATTACHMENT_COUNT {
        proof { reveal_strlit("最多只能上传 3 个附件"); }
        return Err("最多只能上传 3 个附件".to_owned());
    }
    let mut total: u128 = 0;
    let mut i: usize = 0;
    while i < attachments.len()
        invariant
            i <= attachments@.len() <= MAX_ATTACHMENT_COUNT,
            total as int == total_attachment_bytes(attachments@, i as int),
            total <= i * 0x1_0000_0000_0000_0000u128,
        decreases attachments@.len() - i,
    {
        total = total + attachments[i].bytes.len() as u128;
        i = i + 1;
    }
    if total > MAX_TOTAL_ATTACHMENT_BYTES as u128 {
        proof { reveal_strlit("附件总大小不能超过 10 MiB"); }
        return Err("附件总大小不能超过 10 MiB".to_owned());
    }
    Ok(())
}

/// A feedback form as submitted.
#[derive(Debug, Clone, PartialEq, Eq)]
pub struct FeedbackRequest {
    pub category: String,
    pub subject: String,
    pub content: String,
    pub contact_email: Option<String>,
    pub context: Option<FeedbackContext>,
    pub website: String,
}

/// Where the feedback was sent from.
#[derive(Debug, Clone, PartialEq, Eq)]
pub struct FeedbackContext {
    pub runtime: String,
    pub app_version: String,
    pub page: String,
}

/// The answer to an accepted submission.
#[derive(Debug, Clone, PartialEq, Eq)]
pub struct FeedbackReceipt {
    pub feedback_id: String,
}

/// The context kept with a submission.
#[derive(Debug, Clone, PartialEq, Eq)]
pub struct FeedbackContextSummary {
    pub runtime: String,
    pub app_version: String,
    pub page: String,
}

/// A validated submission; the contact address is kept as its mailbox is displayed.
#[derive(Debug, Clone, PartialEq, Eq)]
pub struct FeedbackSubmission {
    pub feedback_id: String,
    pub category: String,
    pub subject: String,
    pub content: String,
    pub contact_email: Option<String>,
    pub context: FeedbackContextSummary,
    pub user_agent: String,
}

impl Default for FeedbackRequest {
    fn default() -> (r: Self)
        ensures
            r.category@.len() == 0 && r.subject@.len() == 0 && r.content@.len() == 0,
            r.contact_email is None && r.context is None && r.website@.len() == 0,
    {
        FeedbackRequest {
            category: String::new(),
            subject: String::new(),
            content: String::new(),
            contact_email: None,
            context: None,
            website: String::new(),
        }
    }
}

impl Default for FeedbackContext {
    fn default() -> (r: Self)
        ensures
            r.runtime@.len() == 0 && r.app_version@.len() == 0 && r.page@.len() == 0,
    {
        FeedbackContext { runtime: String::new(), app_version: String::new(), page: String::new() }
    }
}

impl Default for FeedbackContextSummary {
    fn default() -> (r: Self)
        ensures
            r.runtime@.len() == 0 && r.app_version@.len() == 0 && r.page@.len() == 0,
    {
        FeedbackContextSummary { runtime: String::new(), app_version: String::new(), page: String::new() }
    }
}

/// How `lettre` parses an address into a `Mailbox`, shown as the mailbox displays itself.
pub uninterp spec fn mailbox_display(address: Seq<char>) -> Option<Seq<char>>;

/// `str::parse::<lettre::message::Mailbox>`, with the mailbox shown by its `Display`. The
/// contract names the result.
#[verifier::external_body]
fn parse_mailbox(address: &str) -> (r: Option<String>)
    ensures
        match mailbox_display(address@) {
            Some(d) => r matches Some(s) && s@ == d,
            None => r is None,
        },
{
    match address.parse::<lettre::message::Mailbox>() {
        Ok(mailbox) => Some(mailbox.to_string()),
        Err(_) => None,
    }
}

/// A required field: trimmed, non-empty, at most `max` characters.
pub open spec fn required_trimmed_spec(label: Seq<char>, value: Seq<char>, max: int) -> Result<Seq<char>, Seq<char>> {
    let t = trim_spec(value);
    if t.len() == 0 {
        Err(label + "不能为空"@)
    } else if t.len() > max {
        Err(label + "不能超过 "@ + decimal_digits(max as nat) + " 个字符"@)
    } else {
        Ok(t)
    }
}

/// Trims a required field and checks it.
pub fn required_trimmed(label: &str, value: String, max_chars: usize) -> (r: Result<String, String>)
    ensures
        match required_trimmed_spec(label@, value@, max_chars as int) {
            Ok(t) => r matches Ok(s) && s@ == t,
            Err(m) => r matches Err(e) && e@ == m,
        },
{
    let chars = str_chars(value.as_str());
    let t = trim(&chars);
    if t.len() == 0 {
        let mut message = str_chars(label);
        append_str(&mut message, "不能为空");
        proof { reveal_strlit("不能为空"); }
        return Err(string_from_chars(&message));
    }
    if t.len() > max_chars {
        let mut message = str_chars(label);
        append_str(&mut message, "不能超过 ");
        append_decimal(&mut message, max_chars as u64);
        append_str(&mut message, " 个字符");
        proof {
            reveal_strlit("不能超过 ");
            reveal_strlit(" 个字符");
        }
        return Err(string_from_chars(&message));
    }
    Ok(string_from_chars(&t))
}

/// A trimmed value cut to at most `max` characters.
pub open spec fn limited_spec(value: Seq<char>, max: int) -> Seq<char> {
    let t = trim_spec(value);
    if t.len() <= max { t } else { t.subrange(0, max) }
}

/// Trims a value and keeps at most `max_chars` characters of it.
pub fn trimmed_with_limit(value: &str, max_chars: usize) -> (r: String)
    ensures
        r@ == limited_spec(value@, max_chars as int),
{
    let chars = str_chars(value);
    let t = trim(&chars);
    let mut out: Vec<char> = Vec::new();
    let mut i: usize = 0;
    while i < t.len() && i < max_chars
        invariant
            i <= t@.len(),
            i <= max_chars,
            out@ =~= t@.subrange(0, i as int),
        decreases t@.len() - i,
    {
        out.push(t[i]);
        i = i + 1;
    }
    proof {
        if t@.len() <= max_chars {
            assert(t@.subrange(0, i as int) =~= t@);
        }
    }
    string_from_chars(&out)
}

/// The supported feedback categories.
pub open spec fn known_category(c: Seq<char>) -> bool {
    c == "problem"@ || c == "suggestion"@ || c == "data"@ || c == "other"@
}

/// The contact address kept: none when missing or blank, otherwise at most 254 characters
/// that parse as a mailbox.
pub open spec fn contact_spec(email: Option<String>) -> Result<Option<Seq<char>>, Seq<char>> {
    match email {
        None => Ok(None),
        Some(v) => {
            let t = trim_spec(v@);
            if t.len() == 0 {
                Ok(None)
            } else if t.len() > 254 {
                Err("联系邮箱过长"@)
            } else {
                match mailbox_display(t) {
                    None => Err("联系邮箱格式无效"@),
                    Some(d) => Ok(Some(d)),
                }
            }
        },
    }
}

/// The first problem with a request, if any: category, its value, subject, content, contact.
pub open spec fn submission_error(request: FeedbackRequest) -> Option<Seq<char>> {
    match required_trimmed_spec("反馈类型"@, request.category@, MAX_CATEGORY_CHARS as int) {
        Err(m) => Some(m),
        Ok(category) => if !known_category(category) {
            Some("不支持的反馈类型"@)
        } else {
            match required_trimmed_spec("标题"@, request.subject@, MAX_SUBJECT_CHARS as int) {
                Err(m) => Some(m),
                Ok(_) => match required_trimmed_spec("反馈内容"@, request.content@, MAX_CONTENT_CHARS as int) {
                    Err(m) => Some(m),
                    Ok(_) => match contact_spec(request.contact_email) {
                        Err(m) => Some(m),
                        Ok(_) => None,
                    },
                },
            }
        },
    }
}

/// A context value of the request, empty when there is no context.
pub open spec fn context_value(request: FeedbackRequest, which: int) -> Seq<char> {
    match request.context {
        None => Seq::empty(),
        Some(c) => if which == 0 { c.runtime@ } else if which == 1 { c.app_version@ } else { c.page@ },
    }
}

fn chars_eq_literal(a: &String, b: &str) -> (r: bool)
    ensures
        r == (a@ == b@),
{
    let chars = str_chars(a.as_str());
    chars_eq_str(&chars, b)
}

impl FeedbackSubmission {
    /// Checks a request and keeps its trimmed values: the category must be known, subject and
    /// content non-empty and short enough, and a contact address must parse; context values
    /// and the user agent are trimmed and cut to their limits.
    pub fn validate(request: FeedbackRequest, feedback_id: String, user_agent: Option<&str>) -> (r: Result<Self, String>)
        ensures
            match submission_error(request) {
                Some(m) => r matches Err(e) && e@ == m,
                None => r matches Ok(s) && {
                    &&& s.feedback_id == feedback_id
                    &&& Ok::<Seq<char>, Seq<char>>(s.category@) == required_trimmed_spec("反馈类型"@, request.category@, MAX_CATEGORY_CHARS as int)
                    &&& Ok::<Seq<char>, Seq<char>>(s.subject@) == required_trimmed_spec("标题"@, request.subject@, MAX_SUBJECT_CHARS as int)
                    &&& Ok::<Seq<char>, Seq<char>>(s.content@) == required_trimmed_spec("反馈内容"@, request.content@, MAX_CONTENT_CHARS as int)
                    &&& contact_spec(request.contact_email) == Ok::<Option<Seq<char>>, Seq<char>>(match s.contact_email {
                        Some(c) => Some(c@),
                        None => None,
                    })
                    &&& s.context.runtime@ == limited_spec(context_value(request, 0), MAX_CONTEXT_CHARS as int)
                    &&& s.context.app_version@ == limited_spec(context_value(request, 1), MAX_CONTEXT_CHARS as int)
                    &&& s.context.page@ == limited_spec(context_value(request, 2), MAX_CONTEXT_CHARS as int)
                    &&& s.user_agent@ == limited_spec(match user_agent { Some(u) => u@, None => Seq::empty() }, MAX_USER_AGENT_CHARS as int)
                },
            },
    {
        proof {
            reveal_strlit("反馈类型");
            reveal_strlit("标题");
            reveal_strlit("反馈内容");
            reveal_strlit("problem");
            reveal_strlit("suggestion");
            reveal_strlit("data");
            reveal_strlit("other");
        }
        let ghost req = request;
        let category = match required_trimmed("反馈类型", request.category, MAX_CATEGORY_CHARS) {
            Ok(c) => c,
            Err(e) => return Err(e),
        };
        if !(chars_eq_literal(&category, "problem") || chars_eq_literal(&category, "suggestion")
            || chars_eq_literal(&category, "data") || chars_eq_literal(&category, "other")) {
            proof { reveal_strlit("不支持的反馈类型"); }
            return Err("不支持的反馈类型".to_owned());
        }
        let subject = match required_trimmed("标题", request.subject, MAX_SUBJECT_CHARS) {
            Ok(c) => c,
            Err(e) => return Err(e),
        };
        let content = match required_trimmed("反馈内容", request.content, MAX_CONTENT_CHARS) {
            Ok(c) => c,
            Err(e) => return Err(e),
        };
        let contact_email = match request.contact_email {
            None => None,
            Some(value) => {
                let t = trim(&str_chars(value.as_str()));
                if t.len() == 0 {
                    None
                } else if t.len() > 254 {
                    proof { reveal_strlit("联系邮箱过长"); }
                    return Err("联系邮箱过长".to_owned());
                } else {
                    let address = string_from_chars(&t);
                    match parse_mailbox(address.as_str()) {
                        Some(d) => Some(d),
                        None => {
                            proof { reveal_strlit("联系邮箱格式无效"); }
                            return Err("联系邮箱格式无效".to_owned());
                        },
                    }
                }
            },
        };
        let context = match request.context {
            Some(c) => c,
            None => FeedbackContext::default(),
        };
        proof { reveal_strlit(""); }
        let ua: &str = match user_agent {
            Some(u) => u,
            None => "",
        };
        Ok(FeedbackSubmission {
            feedback_id,
            category,
            subject,
            content,
            contact_email,
            context: FeedbackContextSummary {
                runtime: trimmed_with_limit(context.runtime.as_str(), MAX_CONTEXT_CHARS),
                app_version: trimmed_with_limit(context.app_version.as_str(), MAX_CONTEXT_CHARS),
                page: trimmed_with_limit(context.page.as_str(), MAX_CONTEXT_CHARS),
            },
            user_agent: trimmed_with_limit(ua, MAX_USER_AGENT_CHARS),
        })
    }

    /// The label a category is shown with.
    pub fn category_label(&self) -> (r: &'static str)
        ensures
            r@ == category_label_spec(self.category@),
    {
        proof {
            reveal_strlit("problem");
            reveal_strlit("suggestion");
            reveal_strlit("data");
        }
        if chars_eq_literal(&self.category, "problem") {
            "问题反馈"
        } else if chars_eq_literal(&self.category, "suggestion") {
            "功能建议"
        } else if chars_eq_literal(&self.category, "data") {
            "数据问题"
        } else {
            "其他"
        }
    }
}

/// The label a category is shown with.
pub open spec fn category_label_spec(category: Seq<char>) -> Seq<char> {
    if category == "problem"@ {
        "问题反馈"@
    } else if category == "suggestion"@ {
        "功能建议"@
    } else if category == "data"@ {
        "数据问题"@
    } else {
        "其他"@
    }
}

/// A value, or "未知" when it is empty.
pub open spec fn display_or_unknown_spec(value: Seq<char>) -> Seq<char> {
    if value.len() == 0 { "未知"@ } else { value }
}

/// A value, or "未知" when it is empty.
pub fn display_or_unknown(value: &str) -> (r: &str)
    ensures
        r@ == display_or_unknown_spec(value@),
{
    proof { reveal_strlit("未知"); }
    if value.unicode_len() == 0 {
        "未知"
    } else {
        value
    }
}

/// How one attachment is listed: its name and size.
pub open spec fn attachment_item(a: FeedbackAttachment) -> Seq<char> {
    a.file_name@ + " ("@ + decimal_digits(a.bytes@.len()) + " bytes)"@
}

/// The first `k` attachments listed, separated by "、".
pub open spec fn attachment_list(attachments: Seq<FeedbackAttachment>, k: int) -> Seq<char>
    decreases k,
{
    if k <= 1 {
        attachment_item(attachments[0])
    } else {
        attachment_list(attachments, k - 1) + "、"@ + attachment_item(attachments[k - 1])
    }
}

/// The attachment line of the e-mail: "无" when there is none.
pub open spec fn attachment_summary_spec(attachments: Seq<FeedbackAttachment>) -> Seq<char> {
    if attachments.len() == 0 { "无"@ } else { attachment_list(attachments, attachments.len() as int) }
}

fn append_attachment_item(out: &mut Vec<char>, a: &FeedbackAttachment)
    ensures
        final(out)@ == old(out)@ + attachment_item(*a),
{
    append_str(out, a.file_name.as_str());
    append_str(out, " (");
    append_decimal(out, a.bytes.len() as u64);
    append_str(out, " bytes)");
    proof {
        reveal_strlit(" (");
        reveal_strlit(" bytes)");
    }
}

/// Lists the attachments for the e-mail body.
pub fn attachment_summary(attachments: &[FeedbackAttachment]) -> (r: String)
    ensures
        r@ == attachment_summary_spec(attachments@),
{
    if attachments.len() == 0 {
        proof { reveal_strlit("无"); }
        return "无".to_owned();
    }
    let mut out: Vec<char> = Vec::new();
    append_attachment_item(&mut out, &attachments[0]);
    proof { assert(out@ =~= attachment_list(attachments@, 1)); }
    let mut i: usize = 1;
    while i < attachments.len()
        invariant
            1 <= i <= attachments@.len(),
            out@ == attachment_list(attachments@, i as int),
        decreases attachments@.len() - i,
    {
        append_str(&mut out, "、");
        append_attachment_item(&mut out, &attachments[i]);
        proof {
            reveal_strlit("、");
            assert(out@ =~= attachment_list(attachments@, i + 1));
        }
        i = i + 1;
    }
    string_from_chars(&out)
}

/// The e-mail subject of a submission: its category label, its id, then its
/// title.
pub open spec fn feedback_subject_spec(s: FeedbackSubmission) -> Seq<char> {
    "[反馈]["@ + category_label_spec(s.category@) + "]["@ + s.feedback_id@ + "] "@ + s.subject@
}

/// The e-mail subject of a submission.
pub fn feedback_subject(submission: &FeedbackSubmission) -> (r: String)
    ensures
        r@ == feedback_subject_spec(*submission),
{
    let mut out: Vec<char> = Vec::new();
    append_str(&mut out, "[反馈][");
    append_str(&mut out, submission.category_label());
    append_str(&mut out, "][");
    append_str(&mut out, submission.feedback_id.as_str());
    append_str(&mut out, "] ");
    append_str(&mut out, submission.subject.as_str());
    string_from_chars(&out)
}

/// The e-mail body of a submission.
pub open spec fn feedback_body_spec(s: FeedbackSubmission, attachments: Seq<FeedbackAttachment>) -> Seq<char> {
    let contact = match s.contact_email {
        Some(c) => c@,
        None => "未填写"@,
    };
    "反馈编号："@ + s.feedback_id@
        + "\n反馈类型："@ + category_label_spec(s.category@)
        + "\n联系邮箱："@ + contact
        + "\n运行环境："@ + display_or_unknown_spec(s.context.runtime@)
        + "\n应用版本："@ + display_or_unknown_spec(s.context.app_version@)
        + "\n当前页面："@ + display_or_unknown_spec(s.context.page@)
        + "\nUser-Agent："@ + display_or_unknown_spec(s.user_agent@)
        + "\n附件："@ + attachment_summary_spec(attachments)
        + "\n\n标题："@ + s.subject@
        + "\n\n反馈内容：\n"@ + s.content@
        + "\n"@
}

/// The e-mail body of a submission.
pub fn feedback_body(submission: &FeedbackSubmission, attachments: &[FeedbackAttachment]) -> (r: String)
    ensures
        r@ == feedback_body_spec(*submission, attachments@),
{
    let mut out: Vec<char> = Vec::new();
    append_str(&mut out, "反馈编号：");
    append_str(&mut out, submission.feedback_id.as_str());
    append_str(&mut out, "\n反馈类型：");
    append_str(&mut out, submission.category_label());
    append_str(&mut out, "\n联系邮箱：");
    match &submission.contact_email {
        Some(c) => append_str(&mut out, c.as_str()),
        None => append_str(&mut out, "未填写"),
    }
    append_str(&mut out, "\n运行环境：");
    append_str(&mut out, display_or_unknown(submission.context.runtime.as_str()));
    append_str(&mut out, "\n应用版本：");
    append_str(&mut out, display_or_unknown(submission.context.app_version.as_str()));
    append_str(&mut out, "\n当前页面：");
    append_str(&mut out, display_or_unknown(submission.context.page.as_str()));
    append_str(&mut out, "\nUser-Agent：");
    append_str(&mut out, display_or_unknown(submission.user_agent.as_str()));
    append_str(&mut out, "\n附件：");
    let summary = attachment_summary(attachments);
    append_str(&mut out, summary.as_str());
    append_str(&mut out, "\n\n标题：");
    append_str(&mut out, submission.subject.as_str());
    append_str(&mut out, "\n\n反馈内容：\n");
    append_str(&mut out, submission.content.as_str());
    append_str(&mut out, "\n");
    proof {
        reveal_strlit("反馈编号：");
        reveal_strlit("\n反馈类型：");
        reveal_strlit("\n联系邮箱：");
        reveal_strlit("未填写");
        reveal_strlit("\n运行环境：");
        reveal_strlit("\n应用版本：");
        reveal_strlit("\n当前页面：");
        reveal_strlit("\nUser-Agent：");
        reveal_strlit("\n附件：");
        reveal_strlit("\n\n标题：");
        reveal_strlit("\n\n反馈内容：\n");
        reveal_strlit("\n");
        assert(out@ =~= feedback_body_spec(*submission, attachments@));
    }
    string_from_chars(&out)
}

#[verifier::external_type_specification]
#[verifier::external_body]
pub struct ExInstant(std::time::Instant);

/// `Instant::now`. Nothing is stated of the time it reads.
#[verifier::external_body]
fn instant_now() -> (r: std::time::Instant) {
    std::time::Instant::now()
}

/// `Instant::elapsed` since `origin`, in nanoseconds. Nothing is stated of the time it reads.
#[verifier::external_body]
fn elapsed_nanos(origin: &std::time::Instant) -> (r: u128) {
    origin.elapsed().as_nanos()
}

/// Nanoseconds per second.
pub const NANOS_PER_SECOND: u128 = 1_000_000_000;

/// Limits how often each client may submit: at most `max_attempts` within a sliding window.
/// Times are nanoseconds since the limiter was made.
pub struct FeedbackRateLimiter {
    origin: std::time::Instant,
    attempts: Vec<(String, Vec<u128>)>,
    max_attempts: usize,
    window_nanos: u128,
}

/// The attempt times recorded for `key` among `entries`, none if it has no entry.
pub open spec fn queue_in(entries: Seq<(String, Vec<u128>)>, key: Seq<char>) -> Seq<u128>
    decreases entries.len(),
{
    if entries.len() == 0 {
        Seq::empty()
    } else if entries.last().0@ == key {
        entries.last().1@
    } else {
        queue_in(entries.drop_last(), key)
    }
}

/// No key has two entries.
pub open spec fn distinct_keys(entries: Seq<(String, Vec<u128>)>) -> bool {
    forall|i: int, j: int| 0 <= i < j < entries.len() ==> #[trigger] entries[i].0@ != #[trigger] entries[j].0@
}

/// The attempts still inside the window at `now`: older ones leave from the front.
pub open spec fn live_attempts(queue: Seq<u128>, now: u128, window: u128) -> Seq<u128>
    decreases queue.len(),
{
    if queue.len() > 0 && queue[0] + window <= now {
        live_attempts(queue.drop_first(), now, window)
    } else {
        queue
    }
}

/// Seconds until the oldest live attempt leaves the window, at least one.
pub open spec fn retry_after_spec(queue: Seq<u128>, now: u128, window: u128) -> u64 {
    let deadline = queue[0] + window;
    if deadline > u128::MAX || deadline < now {
        1
    } else {
        let secs = (deadline - now) / (NANOS_PER_SECOND as int);
        if secs < 1 { 1 } else if secs > u64::MAX { u64::MAX } else { secs as u64 }
    }
}

/// What one check does to a client's attempts: refused with the wait when the live attempts
/// already fill the limit, otherwise accepted with `now` recorded.
pub open spec fn check_outcome(queue: Seq<u128>, max: usize, window: u128, now: u128, r: Result<(), u64>, after: Seq<u128>) -> bool {
    let live = live_attempts(queue, now, window);
    &&& live.len() >= max ==> r == Err::<(), u64>(retry_after_spec(live, now, window)) && after == live
    &&& live.len() < max ==> r == Ok::<(), u64>(()) && after == live.push(now)
}

proof fn lemma_queue_in_set(entries: Seq<(String, Vec<u128>)>, i: int, entry: (String, Vec<u128>), key: Seq<char>)
    requires
        distinct_keys(entries),
        0 <= i < entries.len(),
        entry.0@ == entries[i].0@,
    ensures
        queue_in(entries.update(i, entry), key) == if key == entry.0@ { entry.1@ } else { queue_in(entries, key) },
        distinct_keys(entries.update(i, entry)),
    decreases entries.len(),
{
    let updated = entries.update(i, entry);
    if i == entries.len() - 1 {
        assert(updated.drop_last() =~= entries.drop_last());
        if key != entry.0@ {
        } else {
        }
    } else {
        assert(updated.drop_last() =~= entries.drop_last().update(i, entry));
        assert(distinct_keys(entries.drop_last()));
        lemma_queue_in_set(entries.drop_last(), i, entry, key);
        if key == entry.0@ {
            assert(entries.last().0@ != entries[i].0@);
        }
    }
    assert forall|a: int, b: int| 0 <= a < b < updated.len() implies #[trigger] updated[a].0@ != #[trigger] updated[b].0@ by {
        assert(entries[a].0@ != entries[b].0@);
    }
}

proof fn lemma_queue_in_absent(entries: Seq<(String, Vec<u128>)>, key: Seq<char>)
    requires
        forall|i: int| 0 <= i < entries.len() ==> #[trigger] entries[i].0@ != key,
    ensures
        queue_in(entries, key) == Seq::<u128>::empty(),
    decreases entries.len(),
{
    if entries.len() > 0 {
        lemma_queue_in_absent(entries.drop_last(), key);
    }
}

proof fn lemma_queue_in_push(entries: Seq<(String, Vec<u128>)>, entry: (String, Vec<u128>), key: Seq<char>)
    requires
        distinct_keys(entries),
        forall|i: int| 0 <= i < entries.len() ==> #[trigger] entries[i].0@ != entry.0@,
    ensures
        queue_in(entries.push(entry), key) == if key == entry.0@ { entry.1@ } else { queue_in(entries, key) },
        distinct_keys(entries.push(entry)),
{
    assert(entries.push(entry).drop_last() =~= entries);
}

impl FeedbackRateLimiter {
    /// Attempts recorded for a client, oldest first.
    pub closed spec fn queue_of(self, key: Seq<char>) -> Seq<u128> {
        queue_in(self.attempts@, key)
    }

    /// Most attempts in one window.
    pub closed spec fn max_attempts_spec(self) -> usize {
        self.max_attempts
    }

    /// Length of the window in nanoseconds.
    pub closed spec fn window_spec(self) -> u128 {
        self.window_nanos
    }

    /// At least one attempt is allowed, each client has one entry, and no client holds more
    /// attempts than allowed.
    pub closed spec fn wf(self) -> bool {
        &&& self.max_attempts >= 1
        &&& distinct_keys(self.attempts@)
        &&& forall|i: int| 0 <= i < self.attempts@.len() ==> (#[trigger] self.attempts@[i]).1@.len() <= self.max_attempts
    }

    /// A well-formed limiter holds no more than the limit for any client.
    pub proof fn lemma_queue_within_limit(self, key: Seq<char>)
        requires
            self.wf(),
        ensures
            self.queue_of(key).len() <= self.max_attempts_spec(),
    {
        lemma_queue_in_bounded(self.attempts@, key, self.max_attempts as int);
    }

    /// A limiter allowing `max_attempts` (at least one) attempts per `window_secs` seconds.
    pub fn new(max_attempts: usize, window_secs: u64) -> (r: Self)
        ensures
            r.wf(),
            r.max_attempts_spec() == if max_attempts >= 1 { max_attempts } else { 1 },
            r.window_spec() == window_secs as u128 * NANOS_PER_SECOND,
            forall|key: Seq<char>| #[trigger] r.queue_of(key) == Seq::<u128>::empty(),
    {
        let r = FeedbackRateLimiter {
            origin: instant_now(),
            attempts: Vec::new(),
            max_attempts: if max_attempts >= 1 { max_attempts } else { 1 },
            window_nanos: window_secs as u128 * NANOS_PER_SECOND,
        };
        proof {
            assert forall|key: Seq<char>| #[trigger] r.queue_of(key) == Seq::<u128>::empty() by {
                lemma_queue_in_absent(r.attempts@, key);
            }
        }
        r
    }

    /// A limiter from the rate-limit and window settings: each trimmed and parsed as a number,
    /// three attempts and 600 seconds when missing or invalid, and at least one of each.
    pub fn from_env(rate_limit: Option<&str>, window_seconds: Option<&str>) -> (r: Self)
        ensures
            r.wf(),
            r.max_attempts_spec() == max_one(setting_or(setting_value(rate_limit), 3)),
            r.window_spec() == max_one(setting_or(setting_value(window_seconds), 600)) as u128 * NANOS_PER_SECOND,
            forall|key: Seq<char>| #[trigger] r.queue_of(key) == Seq::<u128>::empty(),
    {
        let max_attempts = match setting_usize(rate_limit) {
            Some(v) => v,
            None => 3,
        };
        let window = match setting_usize(window_seconds) {
            Some(v) => v,
            None => 600,
        };
        let window = if window >= 1 { window } else { 1 };
        FeedbackRateLimiter::new(if max_attempts >= 1 { max_attempts } else { 1 }, window as u64)
    }

    /// Records an attempt by `client_key` at `now` unless the client already has
    /// `max_attempts` attempts inside the window; then it answers the seconds to wait.
    pub fn check_at(&mut self, client_key: String, now: u128) -> (r: Result<(), u64>)
        requires
            old(self).wf(),
        ensures
            final(self).wf(),
            final(self).max_attempts_spec() == old(self).max_attempts_spec(),
            final(self).window_spec() == old(self).window_spec(),
            check_outcome(old(self).queue_of(client_key@), old(self).max_attempts_spec(), old(self).window_spec(),
                now, r, final(self).queue_of(client_key@)),
            forall|key: Seq<char>| key != client_key@ ==> #[trigger] final(self).queue_of(key) == old(self).queue_of(key),
            check_step(*old(self), client_key@, now, r, *final(self)),
    {
        let ghost old_entries = self.attempts@;
        let window = self.window_nanos;
        let mut idx: usize = 0;
        let mut found = false;
        while idx < self.attempts.len()
            invariant_except_break
                idx <= self.attempts@.len(),
                self.attempts@ == old_entries,
                !found,
                forall|k: int| 0 <= k < idx ==> #[trigger] self.attempts@[k].0@ != client_key@,
            ensures
                idx <= self.attempts@.len(),
                self.attempts@ == old_entries,
                found ==> idx < self.attempts@.len() && self.attempts@[idx as int].0@ == client_key@,
                !found ==> forall|k: int| 0 <= k < self.attempts@.len() ==> #[trigger] self.attempts@[k].0@ != client_key@,
            decreases self.attempts@.len() - idx,
        {
            if self.attempts[idx].0 == client_key {
                found = true;
                break;
            }
            idx = idx + 1;
        }
        let ghost old_queue = queue_in(old_entries, client_key@);
        proof {
            if found {
                lemma_queue_in_found(old_entries, idx as int, client_key@);
            } else {
                lemma_queue_in_absent(old_entries, client_key@);
            }
        }
        let empty: Vec<u128> = Vec::new();
        let queue: &Vec<u128> = if found { &self.attempts[idx].1 } else { &empty };
        let mut start: usize = 0;
        proof { assert(queue@.subrange(0, queue@.len() as int) =~= queue@); }
        while start < queue.len() && now >= window && queue[start] <= now - window
            invariant
                start <= queue@.len(),
                queue@ == old_queue,
                live_attempts(old_queue, now, window) == live_attempts(queue@.subrange(start as int, queue@.len() as int), now, window),
            decreases queue@.len() - start,
        {
            proof {
                let rest = queue@.subrange(start as int, queue@.len() as int);
                assert(rest.drop_first() =~= queue@.subrange(start + 1, queue@.len() as int));
            }
            start = start + 1;
        }
        let mut live: Vec<u128> = Vec::new();
        let mut k: usize = start;
        while k < queue.len()
            invariant
                start <= k <= queue@.len(),
                live@ =~= queue@.subrange(start as int, k as int),
            decreases queue@.len() - k,
        {
            live.push(queue[k]);
            k = k + 1;
        }
        proof {
            let rest = queue@.subrange(start as int, queue@.len() as int);
            assert(live@ =~= rest);
            assert(live_attempts(rest, now, window) == rest);
        }
        if live.len() >= self.max_attempts {
            let retry = if live[0] > u128::MAX - window {
                1u64
            } else {
                let deadline = live[0] + window;
                if deadline < now {
                    1u64
                } else {
                    let secs = (deadline - now) / NANOS_PER_SECOND;
                    if secs < 1 { 1u64 } else if secs > u64::MAX as u128 { u64::MAX } else { secs as u64 }
                }
            };
            if found {
                let ghost before = self.attempts@;
                self.attempts.set(idx, (client_key, live));
                proof {
                    lemma_queue_in_set(before, idx as int, self.attempts@[idx as int], client_key@);
                    assert forall|key: Seq<char>| key != client_key@ implies #[trigger] queue_in(self.attempts@, key) == queue_in(before, key) by {
                        lemma_queue_in_set(before, idx as int, self.attempts@[idx as int], key);
                    }
                    assert forall|i: int| 0 <= i < self.attempts@.len() implies (#[trigger] self.attempts@[i]).1@.len() <= self.max_attempts by {
                        if i != idx {
                            assert(self.attempts@[i] == before[i]);
                        }
                    }
                }
            }
            return Err(retry);
        }
        live.push(now);
        if found {
            let ghost before = self.attempts@;
            self.attempts.set(idx, (client_key, live));
            proof {
                lemma_queue_in_set(before, idx as int, self.attempts@[idx as int], client_key@);
                assert forall|key: Seq<char>| key != client_key@ implies #[trigger] queue_in(self.attempts@, key) == queue_in(before, key) by {
                    lemma_queue_in_set(before, idx as int, self.attempts@[idx as int], key);
                }
                assert forall|i: int| 0 <= i < self.attempts@.len() implies (#[trigger] self.attempts@[i]).1@.len() <= self.max_attempts by {
                    if i != idx {
                        assert(self.attempts@[i] == before[i]);
                    }
                }
            }
        } else {
            let ghost before = self.attempts@;
            let ghost key_view = client_key@;
            self.attempts.push((client_key, live));
            proof {
                assert(self.attempts@ == before.push(self.attempts@.last()));
                lemma_queue_in_push(before, self.attempts@.last(), key_view);
                assert forall|key: Seq<char>| key != key_view implies #[trigger] queue_in(self.attempts@, key) == queue_in(before, key) by {
                    lemma_queue_in_push(before, self.attempts@.last(), key);
                }
                assert forall|i: int| 0 <= i < self.attempts@.len() implies (#[trigger] self.attempts@[i]).1@.len() <= self.max_attempts by {
                    if i < before.len() {
                        assert(self.attempts@[i] == before[i]);
                    }
                }
            }
        }
        Ok(())
    }

    /// Records an attempt by `client_key` now, as `check_at` does at the current time.
    pub fn check(&mut self, client_key: String) -> (r: Result<(), u64>)
        requires
            old(self).wf(),
        ensures
            final(self).wf(),
            final(self).max_attempts_spec() == old(self).max_attempts_spec(),
            final(self).window_spec() == old(self).window_spec(),
            exists|now: u128| #[trigger] check_outcome(old(self).queue_of(client_key@), old(self).max_attempts_spec(),
                old(self).window_spec(), now, r, final(self).queue_of(client_key@)),
            forall|key: Seq<char>| key != client_key@ ==> #[trigger] final(self).queue_of(key) == old(self).queue_of(key),
    {
        let now = elapsed_nanos(&self.origin);
        self.check_at(client_key, now)
    }
}

impl Default for FeedbackRateLimiter {
    /// Three attempts per ten minutes.
    fn default() -> (r: Self)
        ensures
            r.wf(),
            r.max_attempts_spec() == 3,
            r.window_spec() == 600 * NANOS_PER_SECOND,
    {
        FeedbackRateLimiter::new(3, 600)
    }
}

proof fn lemma_queue_in_bounded(entries: Seq<(String, Vec<u128>)>, key: Seq<char>, max: int)
    requires
        forall|i: int| 0 <= i < entries.len() ==> (#[trigger] entries[i]).1@.len() <= max,
        0 <= max,
    ensures
        queue_in(entries, key).len() <= max,
    decreases entries.len(),
{
    if entries.len() > 0 {
        assert(entries.last() == entries[entries.len() - 1]);
        assert forall|i: int| 0 <= i < entries.drop_last().len() implies (#[trigger] entries.drop_last()[i]).1@.len() <= max by {
            assert(entries.drop_last()[i] == entries[i]);
        }
        lemma_queue_in_bounded(entries.drop_last(), key, max);
    }
}

proof fn lemma_queue_in_found(entries: Seq<(String, Vec<u128>)>, i: int, key: Seq<char>)
    requires
        distinct_keys(entries),
        0 <= i < entries.len(),
        entries[i].0@ == key,
    ensures
        queue_in(entries, key) == entries[i].1@,
    decreases entries.len(),
{
    if i < entries.len() - 1 {
        assert(entries.last().0@ != entries[i].0@);
        assert(distinct_keys(entries.drop_last()));
        lemma_queue_in_found(entries.drop_last(), i, key);
    }
}

/// A setting's value: trimmed, and none when blank.
pub open spec fn setting_text(value: Option<&str>) -> Option<Seq<char>> {
    match value {
        None => None,
        Some(v) => if trim_spec(v@).len() == 0 { None } else { Some(trim_spec(v@)) },
    }
}

/// A numeric setting: its trimmed text parsed as a `usize`.
pub open spec fn setting_value(value: Option<&str>) -> Option<nat> {
    match setting_text(value) {
        None => None,
        Some(t) => parse_unsigned_spec(t, usize::MAX as nat),
    }
}

/// A setting's value, or a default.
pub open spec fn setting_or(value: Option<nat>, default: nat) -> nat {
    match value { Some(v) => v, None => default }
}

/// At least one.
pub open spec fn max_one(v: nat) -> nat {
    if v >= 1 { v } else { 1 }
}

/// A numeric setting: trimmed, non-blank and parsed as a `usize`.
pub fn setting_usize(value: Option<&str>) -> (r: Option<usize>)
    ensures
        match setting_value(value) {
            Some(v) => r == Some(v as usize),
            None => r is None,
        },
{
    match value {
        None => None,
        Some(v) => {
            let t = trim(&str_chars(v));
            if t.len() == 0 {
                return None;
            }
            match parse_unsigned(&t, usize::MAX as u64) {
                Some(n) => Some(n as usize),
                None => None,
            }
        },
    }
}

/// The client's attempts after one check at `now`.
pub open spec fn step_queue(queue: Seq<u128>, max: usize, window: u128, now: u128) -> Seq<u128> {
    let live = live_attempts(queue, now, window);
    if live.len() >= max { live } else { live.push(now) }
}

/// Whether one check at `now` is accepted.
pub open spec fn step_accepts(queue: Seq<u128>, max: usize, window: u128, now: u128) -> bool {
    live_attempts(queue, now, window).len() < max
}

/// The client's attempts after checks at each of `times`, in order.
pub open spec fn run_queue(queue: Seq<u128>, max: usize, window: u128, times: Seq<u128>) -> Seq<u128>
    decreases times.len(),
{
    if times.len() == 0 {
        queue
    } else {
        step_queue(run_queue(queue, max, window, times.drop_last()), max, window, times.last())
    }
}

/// How many of the checks at `times` are accepted.
pub open spec fn run_accepted(queue: Seq<u128>, max: usize, window: u128, times: Seq<u128>) -> nat
    decreases times.len(),
{
    if times.len() == 0 {
        0
    } else {
        run_accepted(queue, max, window, times.drop_last())
            + if step_accepts(run_queue(queue, max, window, times.drop_last()), max, window, times.last()) { 1nat } else { 0nat }
    }
}

/// One check is one step: its outcome is accepted exactly when the step accepts, and the
/// client's attempts become the step's.
pub proof fn lemma_check_outcome_is_step(queue: Seq<u128>, max: usize, window: u128, now: u128, r: Result<(), u64>, after: Seq<u128>)
    requires
        check_outcome(queue, max, window, now, r, after),
    ensures
        after == step_queue(queue, max, window, now),
        (r is Ok) == step_accepts(queue, max, window, now),
{
}

/// How many leading attempts leave the window at `now`.
pub open spec fn expired_count(queue: Seq<u128>, now: u128, window: u128) -> int
    decreases queue.len(),
{
    if queue.len() > 0 && queue[0] + window <= now {
        1 + expired_count(queue.drop_first(), now, window)
    } else {
        0
    }
}

proof fn lemma_live_is_suffix(queue: Seq<u128>, now: u128, window: u128)
    ensures
        0 <= expired_count(queue, now, window) <= queue.len(),
        live_attempts(queue, now, window) == queue.subrange(expired_count(queue, now, window), queue.len() as int),
        forall|m: int| 0 <= m < queue.len() && !(queue[m] + window <= now) ==> expired_count(queue, now, window) <= m,
    decreases queue.len(),
{
    if queue.len() > 0 && queue[0] + window <= now {
        let rest = queue.drop_first();
        lemma_live_is_suffix(rest, now, window);
        assert(rest.subrange(expired_count(rest, now, window), rest.len() as int)
            =~= queue.subrange(expired_count(queue, now, window), queue.len() as int));
        assert forall|m: int| 0 <= m < queue.len() && !(queue[m] + window <= now) implies expired_count(queue, now, window) <= m by {
            assert(m >= 1);
            assert(rest[m - 1] == queue[m]);
        }
    } else {
        assert(queue.subrange(0, queue.len() as int) =~= queue);
    }
}

proof fn lemma_run_keeps_accepted(queue: Seq<u128>, max: usize, window: u128, times: Seq<u128>, t0: u128)
    requires
        max >= 1,
        queue.len() <= max,
        forall|i: int| 0 <= i < times.len() ==> t0 <= #[trigger] times[i] && times[i] < t0 + window,
    ensures
        ({
            let q = run_queue(queue, max, window, times);
            let c = run_accepted(queue, max, window, times);
            &&& c <= q.len() <= max
            &&& forall|i: int| q.len() - c <= i < q.len() ==> #[trigger] q[i] >= t0
        }),
    decreases times.len(),
{
    if times.len() > 0 {
        let prefix = times.drop_last();
        assert forall|i: int| 0 <= i < prefix.len() implies t0 <= #[trigger] prefix[i] && prefix[i] < t0 + window by {
            assert(prefix[i] == times[i]);
        }
        lemma_run_keeps_accepted(queue, max, window, prefix, t0);
        let q = run_queue(queue, max, window, prefix);
        let c = run_accepted(queue, max, window, prefix);
        let now = times.last();
        assert(t0 <= now < t0 + window);
        lemma_live_is_suffix(q, now, window);
        let p = expired_count(q, now, window);
        if c > 0 {
            let m = q.len() - c;
            assert(q[m] >= t0);
            assert(!(q[m] + window <= now));
            assert(p <= m);
        }
        let live = live_attempts(q, now, window);
        assert(live.len() == q.len() - p);
        assert forall|i: int| live.len() - c <= i < live.len() implies #[trigger] live[i] >= t0 by {
            assert(live[i] == q[i + p]);
        }
        if live.len() < max {
            let next = live.push(now);
            assert forall|i: int| next.len() - (c + 1) <= i < next.len() implies #[trigger] next[i] >= t0 by {
                if i < live.len() {
                    assert(next[i] == live[i]);
                }
            }
        }
    }
}

proof fn lemma_run_from_empty(max: usize, window: u128, times: Seq<u128>, t0: u128, k: int)
    requires
        max >= 1,
        0 <= k <= times.len(),
        forall|i: int| 0 <= i < times.len() ==> t0 <= #[trigger] times[i] && times[i] < t0 + window,
    ensures
        run_queue(Seq::empty(), max, window, times.take(k)) == times.take(if k < max { k } else { max as int }),
    decreases k,
{
    if k > 0 {
        lemma_run_from_empty(max, window, times, t0, k - 1);
        let m = if k - 1 < max { k - 1 } else { max as int };
        let q = times.take(m);
        let now = times[k - 1];
        assert(times.take(k).drop_last() =~= times.take(k - 1));
        assert(times.take(k).last() == now);
        if q.len() > 0 {
            assert(q[0] == times[0]);
            assert(!(q[0] + window <= now));
        }
        assert(live_attempts(q, now, window) == q);
        if k - 1 < max {
            assert(q.push(now) =~= times.take(k));
        }
    }
}

/// Within one window a client with no earlier attempts is accepted exactly on its first
/// `max` checks and refused on every later one; a refusal asks it to wait at least one
/// second and, when the checks come in time order, no longer than the window.
pub proof fn lemma_window_accepts_the_first_max(max: usize, window: u128, times: Seq<u128>, t0: u128)
    requires
        max >= 1,
        forall|i: int| 0 <= i < times.len() ==> t0 <= #[trigger] times[i] && times[i] < t0 + window,
    ensures
        forall|k: int| 0 <= k < times.len() ==>
            (step_accepts(#[trigger] run_queue(Seq::empty(), max, window, times.take(k)), max, window, times[k]) <==> k < max),
        forall|k: int| max <= k < times.len() ==> {
            let now = times[k];
            let wait = retry_after_spec(live_attempts(#[trigger] run_queue(Seq::empty(), max, window, times.take(k)), now, window), now, window);
            &&& 1 <= wait
            &&& (forall|i: int, j: int| 0 <= i <= j < times.len() ==> times[i] <= times[j])
                ==> wait <= max_one((window / NANOS_PER_SECOND) as nat)
        },
{
    assert forall|k: int| 0 <= k < times.len() implies
        (step_accepts(#[trigger] run_queue(Seq::empty(), max, window, times.take(k)), max, window, times[k]) <==> k < max) by {
        lemma_run_from_empty(max, window, times, t0, k);
        let q = times.take(if k < max { k } else { max as int });
        if q.len() > 0 {
            assert(q[0] == times[0]);
            assert(!(q[0] + window <= times[k]));
        }
        assert(live_attempts(q, times[k], window) == q);
    }
    assert forall|k: int| max <= k < times.len() implies {
        let now = times[k];
        let wait = retry_after_spec(live_attempts(#[trigger] run_queue(Seq::empty(), max, window, times.take(k)), now, window), now, window);
        &&& 1 <= wait
        &&& (forall|i: int, j: int| 0 <= i <= j < times.len() ==> times[i] <= times[j])
            ==> wait <= max_one((window / NANOS_PER_SECOND) as nat)
    } by {
        lemma_run_from_empty(max, window, times, t0, k);
        let now = times[k];
        let q = times.take(max as int);
        assert(q[0] == times[0]);
        assert(!(q[0] + window <= now));
        assert(live_attempts(q, now, window) == q);
        if forall|i: int, j: int| 0 <= i <= j < times.len() ==> times[i] <= times[j] {
            assert(times[0] <= times[k]);
            let deadline = q[0] + window;
            if deadline <= u128::MAX {
                assert(deadline - now <= window);
                assert((deadline - now) / (NANOS_PER_SECOND as int) <= window / NANOS_PER_SECOND) by (nonlinear_arith)
                    requires deadline - now <= window, 0 <= deadline - now;
            }
        }
    }
}

/// One check of `key` at `now` took the limiter from `before` to `after`
/// with answer `r`, as `FeedbackRateLimiter::check_at` states it.
pub open spec fn check_step(before: FeedbackRateLimiter, key: Seq<char>, now: u128, r: Result<(), u64>, after: FeedbackRateLimiter) -> bool {
    &&& after.wf()
    &&& after.max_attempts_spec() == before.max_attempts_spec()
    &&& after.window_spec() == before.window_spec()
    &&& check_outcome(before.queue_of(key), before.max_attempts_spec(), before.window_spec(), now, r, after.queue_of(key))
    &&& forall|other: Seq<char>| other != key ==> #[trigger] after.queue_of(other) == before.queue_of(other)
}

/// The times of the first `n` checks that were checks of `key`.
pub open spec fn times_of_key(keys: Seq<Seq<char>>, times: Seq<u128>, key: Seq<char>, n: int) -> Seq<u128>
    decreases n,
{
    if n <= 0 {
        Seq::empty()
    } else {
        let earlier = times_of_key(keys, times, key, n - 1);
        if keys[n - 1] == key { earlier.push(times[n - 1]) } else { earlier }
    }
}

proof fn lemma_times_of_key_ordered(keys: Seq<Seq<char>>, times: Seq<u128>, key: Seq<char>, n: int, t0: u128, window: u128)
    requires
        0 <= n <= times.len(),
        keys.len() == times.len(),
        forall|i: int| 0 <= i < times.len() ==> t0 <= #[trigger] times[i] && times[i] < t0 + window,
        forall|i: int, j: int| 0 <= i <= j < times.len() ==> times[i] <= times[j],
    ensures
        ({
            let t = times_of_key(keys, times, key, n);
            &&& forall|a: int| 0 <= a < t.len() ==> t0 <= #[trigger] t[a] && t[a] < t0 + window
            &&& forall|a: int| 0 <= a < t.len() ==> #[trigger] t[a] <= times[n - 1]
            &&& forall|a: int, b: int| 0 <= a <= b < t.len() ==> t[a] <= t[b]
        }),
    decreases n,
{
    if n > 0 {
        lemma_times_of_key_ordered(keys, times, key, n - 1, t0, window);
        let e = times_of_key(keys, times, key, n - 1);
        if n >= 2 {
            assert(times[n - 2] <= times[n - 1]);
        }
        if keys[n - 1] == key {
            let t = e.push(times[n - 1]);
            assert forall|a: int, b: int| 0 <= a <= b < t.len() implies t[a] <= t[b] by {
                if b == t.len() - 1 && a < b {
                    assert(e[a] <= times[n - 2]);
                }
            }
        }
    }
}

proof fn lemma_checks_follow_the_key(
    states: Seq<FeedbackRateLimiter>,
    keys: Seq<Seq<char>>,
    times: Seq<u128>,
    outcomes: Seq<Result<(), u64>>,
    key: Seq<char>,
    n: int,
)
    requires
        0 <= n <= keys.len(),
        states.len() == keys.len() + 1,
        times.len() == keys.len(),
        outcomes.len() == keys.len(),
        states[0].queue_of(key) == Seq::<u128>::empty(),
        forall|i: int| 0 <= i < keys.len() ==> #[trigger] check_step(states[i], keys[i], times[i], outcomes[i], states[i + 1]),
    ensures
        states[n].max_attempts_spec() == states[0].max_attempts_spec(),
        states[n].window_spec() == states[0].window_spec(),
        states[n].queue_of(key) == run_queue(Seq::empty(), states[0].max_attempts_spec(), states[0].window_spec(),
            times_of_key(keys, times, key, n)),
    decreases n,
{
    if n > 0 {
        lemma_checks_follow_the_key(states, keys, times, outcomes, key, n - 1);
        let i = n - 1;
        assert(check_step(states[i], keys[i], times[i], outcomes[i], states[i + 1]));
        if keys[i] == key {
            lemma_check_outcome_is_step(states[i].queue_of(key), states[i].max_attempts_spec(), states[i].window_spec(),
                times[i], outcomes[i], states[i + 1].queue_of(key));
            let t = times_of_key(keys, times, key, n);
            assert(t.drop_last() =~= times_of_key(keys, times, key, i));
        }
    }
}

/// Over any run of checks on one limiter, made inside one window and in time
/// order, a client that had no attempts is accepted on exactly its first `max`
/// checks and refused on every later one, with a wait of at least one second
/// and at most the window in whole seconds (at least one); checks of other
/// clients, and refused checks, do not change this.
pub proof fn lemma_checks_accept_the_first_max_per_key(
    states: Seq<FeedbackRateLimiter>,
    keys: Seq<Seq<char>>,
    times: Seq<u128>,
    outcomes: Seq<Result<(), u64>>,
    key: Seq<char>,
    t0: u128,
)
    requires
        states.len() == keys.len() + 1,
        times.len() == keys.len(),
        outcomes.len() == keys.len(),
        states[0].wf(),
        states[0].queue_of(key) == Seq::<u128>::empty(),
        forall|i: int| 0 <= i < keys.len() ==> #[trigger] check_step(states[i], keys[i], times[i], outcomes[i], states[i + 1]),
        forall|i: int| 0 <= i < times.len() ==> t0 <= #[trigger] times[i] && times[i] < t0 + states[0].window_spec(),
        forall|i: int, j: int| 0 <= i <= j < times.len() ==> times[i] <= times[j],
    ensures
        forall|i: int| 0 <= i < keys.len() && keys[i] == key ==>
            ((#[trigger] outcomes[i]) is Ok <==> times_of_key(keys, times, key, i).len() < states[0].max_attempts_spec()),
        forall|i: int| 0 <= i < keys.len() && keys[i] == key
            && times_of_key(keys, times, key, i).len() >= states[0].max_attempts_spec() ==>
            ((#[trigger] outcomes[i]) matches Err(wait) && 1 <= wait
                && wait <= max_one((states[0].window_spec() / NANOS_PER_SECOND) as nat)),
{
    let max = states[0].max_attempts_spec();
    let window = states[0].window_spec();
    assert(max >= 1);
    assert forall|i: int| 0 <= i < keys.len() && keys[i] == key implies {
        &&& ((#[trigger] outcomes[i]) is Ok <==> times_of_key(keys, times, key, i).len() < max)
        &&& (times_of_key(keys, times, key, i).len() >= max ==> (outcomes[i] matches Err(wait) && 1 <= wait
            && wait <= max_one((window / NANOS_PER_SECOND) as nat)))
    } by {
        lemma_checks_follow_the_key(states, keys, times, outcomes, key, i);
        lemma_times_of_key_ordered(keys, times, key, i + 1, t0, window);
        let before = times_of_key(keys, times, key, i);
        let t = times_of_key(keys, times, key, i + 1);
        let j = before.len() as int;
        assert(t == before.push(times[i]));
        assert(t.take(j) =~= before);
        assert(t[j] == times[i]);
        lemma_window_accepts_the_first_max(max, window, t, t0);
        assert(check_step(states[i], keys[i], times[i], outcomes[i], states[i + 1]));
        lemma_check_outcome_is_step(states[i].queue_of(key), max, window, times[i], outcomes[i], states[i + 1].queue_of(key));
        if j >= max {
            let q = run_queue(Seq::empty(), max, window, t.take(j));
            let live = live_attempts(q, times[i], window);
            assert(live.len() >= max);
        }
    }
}

/// Within one window a client is accepted at most `max` times: checks whose times all lie in
/// `[t0, t0 + window)`, whatever their order and whatever the client's earlier attempts (no
/// more than the limit), accept no more than `max` of them.
pub proof fn lemma_window_admits_at_most_max(queue: Seq<u128>, max: usize, window: u128, times: Seq<u128>, t0: u128)
    requires
        max >= 1,
        queue.len() <= max,
        forall|i: int| 0 <= i < times.len() ==> t0 <= #[trigger] times[i] && times[i] < t0 + window,
    ensures
        run_accepted(queue, max, window, times) <= max,
{
    lemma_run_keeps_accepted(queue, max, window, times, t0);
}

proof fn lemma_last_dot_of_extension(stem: Seq<char>, ext: Seq<char>, k: int)
    requires
        forall|i: int| 0 <= i < ext.len() ==> #[trigger] ext[i] != '.',
        stem.len() + 1 <= k <= stem.len() + 1 + ext.len(),
    ensures
        last_index_of(stem + seq!['.'] + ext, '.', '.', k) == stem.len(),
    decreases k,
{
    let name = stem + seq!['.'] + ext;
    if k > stem.len() + 1 {
        assert(name[k - 1] == ext[k - 1 - stem.len() - 1]);
        lemma_last_dot_of_extension(stem, ext, k - 1);
    } else {
        assert(name[k - 1] == '.');
    }
}

/// An attachment's type is decided by what follows its last dot, in any
/// ASCII case: `.png` is image/png, `.jpg` and `.jpeg` image/jpeg, `.gif`
/// image/gif, `.webp` image/webp, `.txt` and `.log` text/plain, `.json`
/// application/json, `.zip` application/zip and `.pdf` application/pdf, for
/// every stem before the dot; every other extension has no type.
pub proof fn lemma_attachment_types_by_extension(stem: Seq<char>, ext: Seq<char>)
    requires
        forall|i: int| 0 <= i < ext.len() ==> #[trigger] ext[i] != '.',
    ensures
        ({
            let e = ascii_lower_seq(ext);
            attachment_content_type_spec(stem + seq!['.'] + ext) == if e == seq!['p', 'n', 'g'] {
                Some(seq!['i', 'm', 'a', 'g', 'e', '/', 'p', 'n', 'g'])
            } else if e == seq!['j', 'p', 'g'] || e == seq!['j', 'p', 'e', 'g'] {
                Some(seq!['i', 'm', 'a', 'g', 'e', '/', 'j', 'p', 'e', 'g'])
            } else if e == seq!['g', 'i', 'f'] {
                Some(seq!['i', 'm', 'a', 'g', 'e', '/', 'g', 'i', 'f'])
            } else if e == seq!['w', 'e', 'b', 'p'] {
                Some(seq!['i', 'm', 'a', 'g', 'e', '/', 'w', 'e', 'b', 'p'])
            } else if e == seq!['t', 'x', 't'] || e == seq!['l', 'o', 'g'] {
                Some(seq!['t', 'e', 'x', 't', '/', 'p', 'l', 'a', 'i', 'n'])
            } else if e == seq!['j', 's', 'o', 'n'] {
                Some(seq!['a', 'p', 'p', 'l', 'i', 'c', 'a', 't', 'i', 'o', 'n', '/', 'j', 's', 'o', 'n'])
            } else if e == seq!['z', 'i', 'p'] {
                Some(seq!['a', 'p', 'p', 'l', 'i', 'c', 'a', 't', 'i', 'o', 'n', '/', 'z', 'i', 'p'])
            } else if e == seq!['p', 'd', 'f'] {
                Some(seq!['a', 'p', 'p', 'l', 'i', 'c', 'a', 't', 'i', 'o', 'n', '/', 'p', 'd', 'f'])
            } else {
                None
            }
        }),
{
    let name = stem + seq!['.'] + ext;
    lemma_last_dot_of_extension(stem, ext, name.len() as int);
    assert(name.subrange(stem.len() + 1int, name.len() as int) =~= ext);
    reveal_strlit("png");
    reveal_strlit("jpg");
    reveal_strlit("jpeg");
    reveal_strlit("gif");
    reveal_strlit("webp");
    reveal_strlit("txt");
    reveal_strlit("log");
    reveal_strlit("json");
    reveal_strlit("zip");
    reveal_strlit("pdf");
    reveal_strlit("image/png");
    reveal_strlit("image/jpeg");
    reveal_strlit("image/gif");
    reveal_strlit("image/webp");
    reveal_strlit("text/plain");
    reveal_strlit("application/json");
    reveal_strlit("application/zip");
    reveal_strlit("application/pdf");
    assert("png"@ =~= seq!['p', 'n', 'g']);
    assert("jpg"@ =~= seq!['j', 'p', 'g']);
    assert("jpeg"@ =~= seq!['j', 'p', 'e', 'g']);
    assert("gif"@ =~= seq!['g', 'i', 'f']);
    assert("webp"@ =~= seq!['w', 'e', 'b', 'p']);
    assert("txt"@ =~= seq!['t', 'x', 't']);
    assert("log"@ =~= seq!['l', 'o', 'g']);
    assert("json"@ =~= seq!['j', 's', 'o', 'n']);
    assert("zip"@ =~= seq!['z', 'i', 'p']);
    assert("pdf"@ =~= seq!['p', 'd', 'f']);
    assert("image/png"@ =~= seq!['i', 'm', 'a', 'g', 'e', '/', 'p', 'n', 'g']);
    assert("image/jpeg"@ =~= seq!['i', 'm', 'a', 'g', 'e', '/', 'j', 'p', 'e', 'g']);
    assert("image/gif"@ =~= seq!['i', 'm', 'a', 'g', 'e', '/', 'g', 'i', 'f']);
    assert("image/webp"@ =~= seq!['i', 'm', 'a', 'g', 'e', '/', 'w', 'e', 'b', 'p']);
    assert("text/plain"@ =~= seq!['t', 'e', 'x', 't', '/', 'p', 'l', 'a', 'i', 'n']);
    assert("application/json"@ =~= seq!['a', 'p', 'p', 'l', 'i', 'c', 'a', 't', 'i', 'o', 'n', '/', 'j', 's', 'o', 'n']);
    assert("application/zip"@ =~= seq!['a', 'p', 'p', 'l', 'i', 'c', 'a', 't', 'i', 'o', 'n', '/', 'z', 'i', 'p']);
    assert("application/pdf"@ =~= seq!['a', 'p', 'p', 'l', 'i', 'c', 'a', 't', 'i', 'o', 'n', '/', 'p', 'd', 'f']);
}

/// A file name without a dot has no attachment type.
pub proof fn lemma_no_dot_no_type(name: Seq<char>)
    requires
        forall|i: int| 0 <= i < name.len() ==> #[trigger] name[i] != '.',
    ensures
        attachment_content_type_spec(name) is None,
{
    assert forall|k: int| 0 <= k <= name.len() implies #[trigger] last_index_of(name, '.', '.', k) == -1 by {
        lemma_no_dot_prefix(name, k);
    }
}

proof fn lemma_no_dot_prefix(name: Seq<char>, k: int)
    requires
        forall|i: int| 0 <= i < name.len() ==> #[trigger] name[i] != '.',
        0 <= k <= name.len(),
    ensures
        last_index_of(name, '.', '.', k) == -1,
    decreases k,
{
    if k > 0 {
        lemma_no_dot_prefix(name, k - 1);
    }
}

/// An attachment is refused when empty or larger than 5 MiB (5242880 bytes);
/// otherwise it is accepted exactly when its sanitized name has a supported
/// type, under that name and type.
pub proof fn lemma_attachment_size_limits(file_name: Seq<char>, bytes: Seq<u8>)
    ensures
        bytes.len() == 0 ==> attachment_validation(file_name, bytes) is Err,
        bytes.len() > 5_242_880 ==> attachment_validation(file_name, bytes) is Err,
        0 < bytes.len() <= 5_242_880 ==> (attachment_validation(file_name, bytes) is Ok <==>
            (sanitize_file_name_spec(file_name) matches Ok(name) && attachment_content_type_spec(name) is Some)),
        attachment_validation(file_name, bytes) matches Ok((name, t)) ==> 0 < bytes.len() <= 5_242_880
            && sanitize_file_name_spec(file_name) == Ok::<Seq<char>, Seq<char>>(name)
            && attachment_content_type_spec(name) == Some(t),
{
}

/// A kept attachment name is non-empty, at most 120 characters long and free
/// of control characters.
pub proof fn lemma_sanitized_name_bounds(file_name: Seq<char>)
    ensures
        sanitize_file_name_spec(file_name) matches Ok(name) ==> 0 < name.len() <= 120 && !has_control(name),
{
}

/// The feedback limits written out: a category of at most 32 characters, a
/// subject of 120, content of 10000, context values of 80, a user agent of
/// 512, at most 3 attachments of 5 MiB each and 10 MiB in all.
pub proof fn lemma_feedback_limits()
    ensures
        MAX_CATEGORY_CHARS == 32,
        MAX_SUBJECT_CHARS == 120,
        MAX_CONTENT_CHARS == 10_000,
        MAX_CONTEXT_CHARS == 80,
        MAX_USER_AGENT_CHARS == 512,
        MAX_ATTACHMENT_COUNT == 3,
        MAX_ATTACHMENT_BYTES == 5_242_880,
        MAX_TOTAL_ATTACHMENT_BYTES == 10_485_760,
        MAX_FILE_NAME_CHARS == 120,
{
}

/// The feedback categories are problem, suggestion, data and other, shown as
/// 问题反馈, 功能建议, 数据问题 and 其他.
pub proof fn lemma_feedback_categories(c: Seq<char>)
    ensures
        known_category(c) <==> (c == "problem"@ || c == "suggestion"@ || c == "data"@ || c == "other"@),
        c == "problem"@ ==> category_label_spec(c) == "问题反馈"@,
        c == "suggestion"@ ==> category_label_spec(c) == "功能建议"@,
        c == "data"@ ==> category_label_spec(c) == "数据问题"@,
        c == "other"@ ==> category_label_spec(c) == "其他"@,
{
    reveal_strlit("problem");
    reveal_strlit("suggestion");
    reveal_strlit("data");
    reveal_strlit("other");
    assert("problem"@.len() == 7 && "suggestion"@.len() == 10 && "data"@.len() == 4 && "other"@.len() == 5);
}

} // verus!
