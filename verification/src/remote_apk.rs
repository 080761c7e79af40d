//! Reading the official APK by HTTP ranges: what a range answer must say, the
//! window of the file held in memory and the reads and seeks on it, and the
//! engine version in the header of the game's metadata file.
use vstd::prelude::*;
use crate::account::{all_alnum_or_dot, alnum_or_dot, fail, ClientVersion};
use crate::manifest::{account_err, manifest_spec, manifest_version, utf8_text};
use crate::protobuf::ImportError;
use crate::sync_cli::{find_char, first_index_of, lemma_first_index_of_bounds, sub_chars};
use crate::text::{
    append_decimal, append_str, decimal_digits, parse_unsigned, parse_unsigned_spec, starts_with,
    str_chars, string_from_chars, chars_eq_str,
};
use vstd::utf8::{decode_utf8, valid_utf8};

verus! {

/// The largest tail of the file asked for first: the end of central directory
/// record with the longest comment.
pub const TAIL_BYTES: u64 = 65557;

/// The largest file accepted.
pub const MAX_APK_BYTES: u64 = 1073741824;

/// The most bytes asked for by one later range.
pub const RANGE_BYTES: u64 = 65536;

/// The message for a range answer with another status than 206.
pub open spec fn range_status_message(status: u16) -> Seq<char> {
    "官方安装包分段读取失败（HTTP "@ + decimal_digits(status as nat) + "）"@
}

/// The `start-end/length` of a `Content-Range` header: its start, last byte
/// and the file's length.
pub open spec fn content_range_spec(status: u16, header: Option<Seq<char>>) -> Result<
    (u64, u64, u64),
    Seq<char>,
> {
    let bad = "安装包分段格式异常"@;
    if status != 206 {
        Err(range_status_message(status))
    } else {
        match header {
            None => Err("安装包缺少分段信息"@),
            Some(h) => if !(h.len() >= 6 && h.subrange(0, 6) == "bytes "@) {
                Err("安装包缺少分段信息"@)
            } else {
                let raw = h.subrange(6, h.len() as int);
                match first_index_of(raw, '/', 0) {
                    None => Err(bad),
                    Some(i) => {
                        let range = raw.subrange(0, i);
                        let total = raw.subrange(i + 1, raw.len() as int);
                        match first_index_of(range, '-', 0) {
                            None => Err(bad),
                            Some(j) => match (
                                parse_unsigned_spec(range.subrange(0, j), u64::MAX as nat),
                                parse_unsigned_spec(
                                    range.subrange(j + 1, range.len() as int),
                                    u64::MAX as nat,
                                ),
                                parse_unsigned_spec(total, u64::MAX as nat),
                            ) {
                                (Some(s), Some(e), Some(l)) => if s > e || e >= l {
                                    Err("安装包分段超出范围"@)
                                } else {
                                    Ok((s as u64, e as u64, l as u64))
                                },
                                _ => Err(bad),
                            },
                        }
                    },
                }
            },
        }
    }
}

/// Reads the range of a partial answer from its status and `Content-Range`
/// header (absent where the header is missing or not text).
pub fn content_range(status: u16, header: Option<&str>) -> (r: Result<(u64, u64, u64), ImportError>)
    ensures
        match content_range_spec(status, match header { Some(h) => Some(h@), None => None }) {
            Ok(t) => r == Ok::<(u64, u64, u64), ImportError>(t),
            Err(m) => account_err(r, m),
        },
{
    proof {
        reveal_strlit("安装包分段格式异常");
        reveal_strlit("安装包缺少分段信息");
        reveal_strlit("安装包分段超出范围");
        reveal_strlit("官方安装包分段读取失败（HTTP ");
        reveal_strlit("）");
        reveal_strlit("bytes ");
    }
    if status != 206 {
        let mut message: Vec<char> = Vec::new();
        append_str(&mut message, "官方安装包分段读取失败（HTTP ");
        append_decimal(&mut message, status as u64);
        append_str(&mut message, "）");
        return Err(ImportError::Account(string_from_chars(&message)));
    }
    let h = match header {
        Some(h) => str_chars(h),
        None => return Err(fail("安装包缺少分段信息")),
    };
    if !starts_with(&h, &str_chars("bytes ")) {
        return Err(fail("安装包缺少分段信息"));
    }
    let raw = sub_chars(&h, 6, h.len());
    proof {
        lemma_first_index_of_bounds(raw@, '/', 0);
    }
    let slash = match find_char(&raw, '/') {
        Some(i) => i,
        None => return Err(fail("安装包分段格式异常")),
    };
    let range = sub_chars(&raw, 0, slash);
    let total = sub_chars(&raw, slash + 1, raw.len());
    proof {
        lemma_first_index_of_bounds(range@, '-', 0);
    }
    let dash = match find_char(&range, '-') {
        Some(j) => j,
        None => return Err(fail("安装包分段格式异常")),
    };
    let start = parse_unsigned(&sub_chars(&range, 0, dash), u64::MAX);
    let end = parse_unsigned(&sub_chars(&range, dash + 1, range.len()), u64::MAX);
    let len = parse_unsigned(&total, u64::MAX);
    match (start, end, len) {
        (Some(s), Some(e), Some(l)) => {
            if s > e || e >= l {
                Err(fail("安装包分段超出范围"))
            } else {
                Ok((s, e, l))
            }
        },
        _ => Err(fail("安装包分段格式异常")),
    }
}

/// The part of the file held in memory, and the read position.
#[derive(Debug, Clone, PartialEq, Eq)]
pub struct ApkWindow {
    pub len: u64,
    pub pos: u64,
    pub start: u64,
    pub cache: Vec<u8>,
}

/// Where a seek goes from.
#[derive(Debug, Clone, Copy, PartialEq, Eq, Structural)]
pub enum SeekTarget {
    Start(u64),
    End(i64),
    Current(i64),
}

impl ApkWindow {
    /// The file is of an accepted size, the position within it, and the
    /// window inside it.
    pub open spec fn wf(self) -> bool {
        &&& 0 < self.len <= MAX_APK_BYTES
        &&& self.pos <= self.len
        &&& self.start + self.cache@.len() <= self.len
    }

    /// The window of the first answer, the tail of the file, if the answer
    /// covers the file's end with at most `TAIL_BYTES` bytes and its body is
    /// all of the range.
    pub fn open(start: u64, end: u64, len: u64, body: Vec<u8>) -> (r: Result<ApkWindow, ImportError>)
        requires
            start <= end < len,
        ensures
            (len > MAX_APK_BYTES || end + 1 != len || end - start + 1 > TAIL_BYTES) ==> account_err(
                r,
                "官方安装包长度异常"@,
            ),
            !(len > MAX_APK_BYTES || end + 1 != len || end - start + 1 > TAIL_BYTES) && body@.len()
                != end - start + 1 ==> account_err(r, "官方安装包分段不完整"@),
            !(len > MAX_APK_BYTES || end + 1 != len || end - start + 1 > TAIL_BYTES) && body@.len()
                == end - start + 1 ==> (r matches Ok(w) && w.wf() && w.len == len && w.pos == 0
                && w.start == start && w.cache@ == body@),
    {
        proof {
            reveal_strlit("官方安装包长度异常");
            reveal_strlit("官方安装包分段不完整");
        }
        if len == 0 || len > MAX_APK_BYTES || end + 1 != len || end - start + 1 > TAIL_BYTES {
            return Err(fail("官方安装包长度异常"));
        }
        if body.len() as u64 != end - start + 1 {
            return Err(fail("官方安装包分段不完整"));
        }
        Ok(ApkWindow { len, pos: 0, start, cache: body })
    }

    /// The read position is outside the window.
    pub open spec fn needs_fill_spec(self) -> bool {
        self.pos < self.start || self.pos >= self.start + self.cache@.len()
    }

    /// Whether the read position is outside the window.
    pub fn needs_fill(&self) -> (r: bool)
        requires
            self.wf(),
        ensures
            r == self.needs_fill_spec(),
    {
        self.pos < self.start || self.pos >= self.start + self.cache.len() as u64
    }

    /// The range to ask for next: from the read position, at most
    /// `RANGE_BYTES` bytes, not past the end.
    pub fn fill_range(&self) -> (r: (u64, u64))
        requires
            self.wf(),
            self.pos < self.len,
        ensures
            r.0 == self.pos,
            r.1 == if self.pos + (RANGE_BYTES - 1) < self.len - 1 {
                self.pos + (RANGE_BYTES - 1)
            } else {
                self.len - 1
            },
    {
        let want = self.pos + (RANGE_BYTES - 1);
        let last = self.len - 1;
        (self.pos, if want < last { want } else { last })
    }

    /// Takes the answer to the range of `fill_range` as the new window, if it
    /// is that range of the same file, whole.
    pub fn accept_fill(&mut self, start: u64, end: u64, len: u64, body: Vec<u8>) -> (r: Result<(), ImportError>)
        requires
            old(self).wf(),
            old(self).pos < old(self).len,
            start <= end < len,
        ensures
            ({
                let want = if old(self).pos + (RANGE_BYTES - 1) < old(self).len - 1 {
                    old(self).pos + (RANGE_BYTES - 1)
                } else {
                    old(self).len - 1
                };
                &&& (start != old(self).pos || end != want || len != old(self).len) ==> account_err(
                    r,
                    "官方安装包分段发生变化"@,
                ) && *final(self) == *old(self)
                &&& (start == old(self).pos && end == want && len == old(self).len && body@.len()
                    != end - start + 1) ==> account_err(r, "官方安装包分段不完整"@) && *final(self)
                    == *old(self)
                &&& (start == old(self).pos && end == want && len == old(self).len && body@.len()
                    == end - start + 1) ==> r is Ok && final(self).wf() && final(self).len
                    == old(self).len && final(self).pos == old(self).pos && final(self).start
                    == start && final(self).cache@ == body@ && !final(self).needs_fill_spec()
            }),
    {
        proof {
            reveal_strlit("官方安装包分段发生变化");
            reveal_strlit("官方安装包分段不完整");
        }
        let (from, want) = self.fill_range();
        if start != from || end != want || len != self.len {
            return Err(fail("官方安装包分段发生变化"));
        }
        if body.len() as u64 != end - start + 1 {
            return Err(fail("官方安装包分段不完整"));
        }
        self.start = start;
        self.cache = body;
        Ok(())
    }

    /// Reads up to `max` bytes from the window at the read position, and moves
    /// the position past them.
    pub fn take(&mut self, max: usize) -> (r: Vec<u8>)
        requires
            old(self).wf(),
            !old(self).needs_fill_spec(),
        ensures
            ({
                let offset = old(self).pos - old(self).start;
                let available = old(self).cache@.len() - offset;
                let count = if max < available { max as int } else { available };
                &&& r@ == old(self).cache@.subrange(offset, offset + count)
                &&& final(self).pos == old(self).pos + count
                &&& final(self).len == old(self).len
                &&& final(self).start == old(self).start
                &&& final(self).cache == old(self).cache
                &&& final(self).wf()
            }),
    {
        let offset = (self.pos - self.start) as usize;
        let n = self.cache.len();
        let available = n - offset;
        let count = if max < available { max } else { available };
        let mut out: Vec<u8> = Vec::new();
        let mut k: usize = 0;
        while k < count
            invariant
                k <= count,
                n == self.cache@.len(),
                offset + count <= n,
                out@ == self.cache@.subrange(offset as int, offset + k),
            decreases count - k,
        {
            out.push(self.cache[offset + k]);
            assert(self.cache@.subrange(offset as int, offset + k + 1) =~= self.cache@.subrange(
                offset as int,
                offset + k,
            ).push(self.cache@[offset + k]));
            k += 1;
        }
        self.pos = self.pos + count as u64;
        out
    }

    /// Moves the read position; `None`, and no move, where the target is
    /// before the start or past the end of the file.
    pub fn seek(&mut self, target: SeekTarget) -> (r: Option<u64>)
        requires
            old(self).wf(),
        ensures
            ({
                let position: int = match target {
                    SeekTarget::Start(n) => n as int,
                    SeekTarget::End(n) => old(self).len + n,
                    SeekTarget::Current(n) => old(self).pos + n,
                };
                &&& (position < 0 || position > old(self).len) ==> r is None && *final(self)
                    == *old(self)
                &&& (0 <= position <= old(self).len) ==> r == Some(position as u64)
                    && final(self).pos == position && final(self).len == old(self).len
                    && final(self).start == old(self).start && final(self).cache == old(self).cache
                    && final(self).wf()
            }),
    {
        let position: i128 = match target {
            SeekTarget::Start(n) => n as i128,
            SeekTarget::End(n) => self.len as i128 + n as i128,
            SeekTarget::Current(n) => self.pos as i128 + n as i128,
        };
        if position < 0 || position > self.len as i128 {
            return None;
        }
        self.pos = position as u64;
        Some(self.pos)
    }
}

/// Bytes from `at` up to the first zero byte, or to the end.
pub open spec fn until_zero(b: Seq<u8>, at: int) -> Seq<u8>
    decreases b.len() - at,
{
    if at < 0 || at >= b.len() || b[at] == 0 {
        Seq::empty()
    } else {
        seq![b[at]] + until_zero(b, at + 1)
    }
}

/// The big-endian 32-bit number at `at`.
pub open spec fn be32(b: Seq<u8>, at: int) -> int {
    b[at] * 16777216 + b[at + 1] * 65536 + b[at + 2] * 256 + b[at + 3]
}

/// An engine version of 8 to 64 bytes, ASCII letters, digits and dots,
/// starting with "20".
pub open spec fn unity_text_ok(text: Seq<u8>, s: Seq<char>) -> bool {
    &&& 8 <= text.len() <= 64
    &&& forall|i: int| 0 <= i < s.len() ==> #[trigger] alnum_or_dot(s[i])
    &&& s.len() >= 2 && s[0] == '2' && s[1] == '0'
}

/// The engine version in the 128-byte header of the game's metadata file:
/// the text from byte 48 (format 22) or byte 20 (formats 9 to 21) up to the
/// first zero byte, 8 to 64 bytes of ASCII letters, digits and dots starting
/// with "20".
pub open spec fn unity_version_spec(header: Seq<u8>) -> Result<Seq<char>, Seq<char>> {
    let format = be32(header, 8);
    if !(9 <= format <= 22) {
        Err("不支持的引擎元数据格式"@)
    } else {
        let text = until_zero(header, if format >= 22 { 48 } else { 20 });
        if !valid_utf8(text) {
            Err("引擎版本编码错误"@)
        } else {
            let s = decode_utf8(text);
            if !unity_text_ok(text, s) {
                Err("引擎版本格式异常"@)
            } else {
                Ok(s)
            }
        }
    }
}

fn text_until_zero(header: &[u8], at: usize) -> (r: Vec<u8>)
    requires
        at <= header@.len(),
    ensures
        r@ == until_zero(header@, at as int),
{
    let mut end = at;
    while end < header.len() && header[end] != 0
        invariant
            at <= end <= header@.len(),
            until_zero(header@, at as int) == header@.subrange(at as int, end as int) + until_zero(
                header@,
                end as int,
            ),
        decreases header@.len() - end,
    {
        assert(header@.subrange(at as int, end as int + 1) =~= header@.subrange(at as int, end as int)
            + seq![header@[end as int]]);
        assert(until_zero(header@, end as int) == seq![header@[end as int]] + until_zero(header@, end + 1));
        assert(header@.subrange(at as int, end as int) + (seq![header@[end as int]] + until_zero(header@, end + 1))
            =~= header@.subrange(at as int, end as int + 1) + until_zero(header@, end + 1));
        end += 1;
    }
    assert(until_zero(header@, end as int) =~= Seq::<u8>::empty());
    assert(header@.subrange(at as int, end as int) + Seq::<u8>::empty() =~= header@.subrange(
        at as int,
        end as int,
    ));
    let mut out: Vec<u8> = Vec::new();
    let mut k = at;
    while k < end
        invariant
            at <= k <= end <= header@.len(),
            out@ == header@.subrange(at as int, k as int),
        decreases end - k,
    {
        out.push(header[k]);
        assert(header@.subrange(at as int, k as int + 1) =~= header@.subrange(at as int, k as int).push(header@[k as int]));
        k += 1;
    }
    out
}

/// Reads the engine version from the header of the game's metadata file.
pub fn unity_version_from_header(header: &[u8]) -> (r: Result<String, ImportError>)
    requires
        header@.len() == 128,
    ensures
        match unity_version_spec(header@) {
            Ok(s) => r matches Ok(v) && v@ == s,
            Err(m) => account_err(r, m),
        },
{
    proof {
        reveal_strlit("不支持的引擎元数据格式");
        reveal_strlit("引擎版本编码错误");
        reveal_strlit("引擎版本格式异常");
    }
    let format: u32 = (header[8] as u32) * 16777216 + (header[9] as u32) * 65536 + (header[10] as u32)
        * 256 + (header[11] as u32);
    assert(format == be32(header@, 8));
    if !(9 <= format && format <= 22) {
        return Err(fail("不支持的引擎元数据格式"));
    }
    let at: usize = if format >= 22 { 48 } else { 20 };
    let text = text_until_zero(header, at);
    let unity = match utf8_text(text.as_slice()) {
        Some(s) => s,
        None => return Err(fail("引擎版本编码错误")),
    };
    let chars = str_chars(unity.as_str());
    let ok = 8 <= text.len() && text.len() <= 64 && all_alnum_or_dot(&chars) && chars.len() >= 2
        && chars[0] == '2' && chars[1] == '0';
    assert(ok == unity_text_ok(text@, chars@));
    if !ok {
        return Err(fail("引擎版本格式异常"));
    }
    Ok(unity)
}

/// The client version of an APK: the version name and code from its
/// manifest, and the engine version from the header of its metadata file.
pub fn client_version_from_parts(manifest: &[u8], header: &[u8]) -> (r: Result<ClientVersion, ImportError>)
    requires
        header@.len() == 128,
    ensures
        match manifest_spec(manifest@) {
            Err(m) => account_err(r, m),
            Ok((client, code)) => match unity_version_spec(header@) {
                Err(m) => account_err(r, m),
                Ok(unity) => r matches Ok(v) && v.client@ == client && v.code@ == code && v.unity@
                    == unity,
            },
        },
{
    let (client, code) = match manifest_version(manifest) {
        Ok(pair) => pair,
        Err(e) => return Err(e),
    };
    let unity = match unity_version_from_header(header) {
        Ok(u) => u,
        Err(e) => return Err(e),
    };
    Ok(ClientVersion { client, code, unity })
}

/// The parts of a parsed URL that decide where the APK may come from.
#[derive(Debug, Clone, PartialEq, Eq)]
pub struct UrlParts {
    pub scheme: String,
    pub host: Option<String>,
    pub path: String,
    pub username: String,
    pub password: Option<String>,
    pub port: Option<u16>,
}

/// `s` ends with `suffix`.
pub open spec fn ends_with_spec(s: Seq<char>, suffix: Seq<char>) -> bool {
    suffix.len() <= s.len() && s.subrange(s.len() - suffix.len(), s.len() as int) == suffix
}

/// The hosts the official APK is served from.
pub open spec fn official_apk_host(host: Seq<char>) -> bool {
    host == "pkg.biligame.com"@ || host == "pkgdl.biligame.net"@
}

/// An APK URL is allowed when it is HTTPS to one of the official hosts, its
/// path ends in `.apk`, and it names no user, password or port.
pub open spec fn allowed_apk_spec(url: UrlParts) -> bool {
    &&& url.scheme@ == "https"@
    &&& (url.host matches Some(h) && official_apk_host(h@))
    &&& ends_with_spec(url.path@, ".apk"@)
    &&& url.username@.len() == 0
    &&& url.password is None
    &&& url.port is None
}

fn ends_with_str(s: &str, suffix: &str) -> (r: bool)
    ensures
        r == ends_with_spec(s@, suffix@),
{
    let a = str_chars(s);
    let b = str_chars(suffix);
    if b.len() > a.len() {
        return false;
    }
    let start = a.len() - b.len();
    let mut i: usize = 0;
    while i < b.len()
        invariant
            a@ == s@,
            b@ == suffix@,
            start + b@.len() == a@.len(),
            a@.len() == a.len(),
            i <= b@.len(),
            forall|k: int| 0 <= k < i ==> a@[start + k] == b@[k],
        decreases b@.len() - i,
    {
        if a[start + i] != b[i] {
            proof {
                assert(a@.subrange(start as int, a@.len() as int)[i as int] != b@[i as int]);
            }
            return false;
        }
        i = i + 1;
    }
    proof {
        assert(a@.subrange(start as int, a@.len() as int) =~= b@);
    }
    true
}

/// Whether the APK may be downloaded from `url`.
pub fn allowed_apk(url: &UrlParts) -> (r: bool)
    ensures
        r == allowed_apk_spec(*url),
{
    let https = chars_eq_str(&str_chars(url.scheme.as_str()), "https");
    let host = match &url.host {
        Some(h) => {
            let chars = str_chars(h.as_str());
            chars_eq_str(&chars, "pkg.biligame.com") || chars_eq_str(&chars, "pkgdl.biligame.net")
        },
        None => false,
    };
    https && host && ends_with_str(url.path.as_str(), ".apk") && url.username.unicode_len() == 0
        && url.password.is_none() && url.port.is_none()
}

} // verus!
