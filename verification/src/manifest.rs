//! Reading the client version out of the APK's binary `AndroidManifest.xml`:
//! its chunks, its string pool (UTF-8 or UTF-16) and the attributes of the
//! `manifest` element.
use vstd::prelude::*;
use vstd::utf8::{valid_utf8, decode_utf8, encode_utf8};
use crate::protobuf::ImportError;
use crate::account::{fail, byte_len, utf8_byte_len, ascii_digits, all_ascii_digits, dotted_version, dotted_version_spec};
use crate::text::{str_chars, chars_eq_str, decimal_digits, u64_to_decimal, string_from_chars};
use crate::sync_cli::string_views;

verus! {

/// The largest manifest read.
pub const MAX_MANIFEST: usize = 2097152;

/// `r` is the account error with message `m`.
pub open spec fn account_err<T>(r: Result<T, ImportError>, m: Seq<char>) -> bool {
    r matches Err(ImportError::Account(e)) && e@ == m
}

/// The little-endian 16-bit number at `at`, when both bytes are there.
pub open spec fn le16(b: Seq<u8>, at: int) -> Option<u16> {
    if 0 <= at && at + 2 <= b.len() {
        Some((b[at] as int + 256 * (b[at + 1] as int)) as u16)
    } else {
        None
    }
}

/// The little-endian 32-bit number at `at`, when all four bytes are there.
pub open spec fn le32(b: Seq<u8>, at: int) -> Option<u32> {
    if 0 <= at && at + 4 <= b.len() {
        Some((b[at] as int + 256 * (b[at + 1] as int) + 65536 * (b[at + 2] as int)
            + 16777216 * (b[at + 3] as int)) as u32)
    } else {
        None
    }
}

/// The message for a manifest that ends too early.
pub open spec fn truncated() -> Seq<char> {
    "安装包清单截断"@
}

/// Reads a little-endian `u16`.
pub fn u16at(b: &[u8], at: usize) -> (r: Result<u16, ImportError>)
    ensures
        match le16(b@, at as int) {
            Some(v) => r == Ok::<u16, ImportError>(v),
            None => account_err(r, truncated()),
        },
{
    if at > b.len() || b.len() - at < 2 {
        proof { reveal_strlit("安装包清单截断"); }
        return Err(fail("安装包清单截断"));
    }
    let v: u16 = b[at] as u16 + (b[at + 1] as u16) * 256;
    Ok(v)
}

/// Reads a little-endian `u32`.
pub fn u32at(b: &[u8], at: usize) -> (r: Result<u32, ImportError>)
    ensures
        match le32(b@, at as int) {
            Some(v) => r == Ok::<u32, ImportError>(v),
            None => account_err(r, truncated()),
        },
{
    if at > b.len() || b.len() - at < 4 {
        proof { reveal_strlit("安装包清单截断"); }
        return Err(fail("安装包清单截断"));
    }
    let v: u32 = b[at] as u32 + (b[at + 1] as u32) * 256 + (b[at + 2] as u32) * 65536
        + (b[at + 3] as u32) * 16777216;
    Ok(v)
}

/// The string of the pool at `index`, if there is one.
pub open spec fn pool_get(pool: Seq<Seq<char>>, index: u32) -> Option<Seq<char>> {
    if (index as int) < pool.len() { Some(pool[index as int]) } else { None }
}

/// The message for a string index outside the pool.
pub open spec fn bad_index() -> Seq<char> {
    "安装包清单字符串索引异常"@
}

/// The string of the pool at `index`.
pub fn string_at(pool: &Vec<String>, index: u32) -> (r: Result<&str, ImportError>)
    ensures
        match pool_get(crate::sync_cli::string_views(pool@), index) {
            Some(s) => r matches Ok(t) && t@ == s,
            None => account_err(r, bad_index()),
        },
{
    let i = index as usize;
    if i < pool.len() {
        Ok(pool[i].as_str())
    } else {
        proof { reveal_strlit("安装包清单字符串索引异常"); }
        Err(fail("安装包清单字符串索引异常"))
    }
}

/// The message for a pool string that ends too early.
pub open spec fn string_truncated() -> Seq<char> {
    "清单字符串截断"@
}

/// A one- or two-byte length of a UTF-8 pool string, and where what follows starts.
pub open spec fn len8_spec(b: Seq<u8>, at: int) -> Result<(int, int), Seq<char>> {
    if !(0 <= at < b.len()) {
        Err(string_truncated())
    } else if b[at] < 128 {
        Ok((b[at] as int, at + 1))
    } else if at + 1 >= b.len() {
        Err(string_truncated())
    } else {
        Ok(((b[at] - 128) * 256 + b[at + 1], at + 2))
    }
}

/// Reads a one- or two-byte length and moves `at` past it.
pub fn len8(b: &[u8], at: &mut usize) -> (r: Result<usize, ImportError>)
    ensures
        match len8_spec(b@, *old(at) as int) {
            Ok((v, next)) => r == Ok::<usize, ImportError>(v as usize) && *final(at) == next,
            Err(m) => account_err(r, m),
        },
{
    proof { reveal_strlit("清单字符串截断"); }
    if *at >= b.len() {
        return Err(fail("清单字符串截断"));
    }
    let x = b[*at];
    *at = *at + 1;
    if x < 128 {
        Ok(x as usize)
    } else {
        if *at >= b.len() {
            return Err(fail("清单字符串截断"));
        }
        let y = b[*at];
        *at = *at + 1;
        Ok(((x - 128) as usize) * 256 + y as usize)
    }
}

/// A one- or two-unit length of a UTF-16 pool string, and where what follows starts.
pub open spec fn len16_spec(b: Seq<u8>, at: int) -> Result<(int, int), Seq<char>> {
    match le16(b, at) {
        None => Err(truncated()),
        Some(x) => if x < 0x8000 {
            Ok((x as int, at + 2))
        } else {
            match le16(b, at + 2) {
                None => Err(truncated()),
                Some(y) => Ok(((x - 0x8000) * 65536 + y, at + 4)),
            }
        },
    }
}

/// Reads a one- or two-unit length and moves `at` past it.
pub fn len16(b: &[u8], at: &mut usize) -> (r: Result<usize, ImportError>)
    ensures
        match len16_spec(b@, *old(at) as int) {
            Ok((v, next)) => r == Ok::<usize, ImportError>(v as usize) && *final(at) == next,
            Err(m) => account_err(r, m),
        },
{
    let n = b.len();
    let x = match u16at(b, *at) {
        Ok(x) => x,
        Err(e) => return Err(e),
    };
    assert(*at + 2 <= n);
    *at = *at + 2;
    if x < 0x8000 {
        Ok(x as usize)
    } else {
        let y = match u16at(b, *at) {
            Ok(y) => y,
            Err(e) => return Err(e),
        };
        assert(*at + 2 <= n);
        *at = *at + 2;
        Ok(((x - 0x8000) as usize) * 65536 + y as usize)
    }
}

/// Whether a UTF-16 unit is the first half of a surrogate pair.
pub open spec fn is_high_surrogate(u: u16) -> bool {
    0xD800 <= u < 0xDC00
}

/// Whether a UTF-16 unit is the second half of a surrogate pair.
pub open spec fn is_low_surrogate(u: u16) -> bool {
    0xDC00 <= u < 0xE000
}

/// The text of UTF-16 units: a unit outside the surrogates stands for itself,
/// a high surrogate followed by a low one for a supplementary character, and
/// any other surrogate makes it invalid.
pub open spec fn decode_utf16(units: Seq<u16>) -> Option<Seq<char>>
    decreases units.len(),
{
    if units.len() == 0 {
        Some(Seq::empty())
    } else if !is_high_surrogate(units[0]) && !is_low_surrogate(units[0]) {
        match decode_utf16(units.drop_first()) {
            Some(rest) => Some(seq![units[0] as char] + rest),
            None => None,
        }
    } else if is_high_surrogate(units[0]) && units.len() >= 2 && is_low_surrogate(units[1]) {
        match decode_utf16(units.subrange(2, units.len() as int)) {
            Some(rest) => Some(seq![(0x10000 + (units[0] - 0xD800) * 0x400 + (units[1] - 0xDC00)) as char] + rest),
            None => None,
        }
    } else {
        None
    }
}

/// `String::from_utf16`: the text of the units, or none when they hold an
/// unpaired surrogate.
#[verifier::external_body]
fn utf16_text(units: &[u16]) -> (r: Option<String>)
    ensures
        crate::sync_cli::opt_view(r) == decode_utf16(units@),
{
    match String::from_utf16(units) {
        Ok(s) => Some(s),
        Err(_) => None,
    }
}

/// `std::str::from_utf8`: the text of the bytes when they are valid UTF-8.
#[verifier::external_body]
pub(crate) fn utf8_text(bytes: &[u8]) -> (r: Option<String>)
    ensures
        r is Some <==> valid_utf8(bytes@),
        r matches Some(s) ==> s@ == decode_utf8(bytes@),
{
    match std::str::from_utf8(bytes) {
        Ok(s) => Some(s.to_owned()),
        Err(_) => None,
    }
}


/// `len` UTF-16 units read from `at` on.
pub open spec fn units_at(b: Seq<u8>, at: int, len: int) -> Seq<u16> {
    Seq::new(len as nat, |n: int| (b[at + 2 * n] as int + 256 * (b[at + 2 * n + 1] as int)) as u16)
}

/// The message for a pool string that is not valid text.
pub open spec fn bad_encoding() -> Seq<char> {
    "清单字符串编码错误"@
}

/// The pool string stored at `at`: UTF-8 (a character count, a byte count,
/// the bytes) or UTF-16 (a unit count, the units, at most 32768 of them).
#[verifier::opaque]
pub open spec fn pool_entry_spec(chunk: Seq<u8>, at: int, utf8: bool) -> Result<Seq<char>, Seq<char>> {
    if utf8 {
        match len8_spec(chunk, at) {
            Err(m) => Err(m),
            Ok((_, a1)) => match len8_spec(chunk, a1) {
                Err(m) => Err(m),
                Ok((len, a2)) => if a2 + len > chunk.len() {
                    Err(string_truncated())
                } else if valid_utf8(chunk.subrange(a2, a2 + len)) {
                    Ok(decode_utf8(chunk.subrange(a2, a2 + len)))
                } else {
                    Err(bad_encoding())
                },
            },
        }
    } else {
        match len16_spec(chunk, at) {
            Err(m) => Err(m),
            Ok((len, a1)) => if len > 32768 {
                Err("清单字符串过长"@)
            } else if a1 + 2 * len > chunk.len() {
                Err(truncated())
            } else {
                match decode_utf16(units_at(chunk, a1, len)) {
                    Some(t) => Ok(t),
                    None => Err(bad_encoding()),
                }
            },
        }
    }
}

proof fn lemma_len8_bounds(b: Seq<u8>, at: int)
    ensures
        len8_spec(b, at) matches Ok((v, next)) ==> at < next <= b.len() && 0 <= v < 32768,
{
}

/// Reads the pool string stored at `at`.
fn pool_entry(chunk: &[u8], at: usize, utf8: bool) -> (r: Result<String, ImportError>)
    ensures
        match pool_entry_spec(chunk@, at as int, utf8) {
            Ok(t) => r matches Ok(s) && s@ == t,
            Err(m) => account_err(r, m),
        },
{
    proof { reveal(pool_entry_spec); }
    let n = chunk.len();
    let mut pos = at;
    if utf8 {
        proof { lemma_len8_bounds(chunk@, at as int); }
        match len8(chunk, &mut pos) {
            Ok(_) => {},
            Err(e) => return Err(e),
        }
        let ghost a1 = pos;
        proof { lemma_len8_bounds(chunk@, a1 as int); }
        let len = match len8(chunk, &mut pos) {
            Ok(len) => len,
            Err(e) => return Err(e),
        };
        if len > n - pos {
            proof { reveal_strlit("清单字符串截断"); }
            return Err(fail("清单字符串截断"));
        }
        let bytes = vstd::slice::slice_subrange(chunk, pos, pos + len);
        match utf8_text(bytes) {
            Some(s) => Ok(s),
            None => {
                proof { reveal_strlit("清单字符串编码错误"); }
                Err(fail("清单字符串编码错误"))
            },
        }
    } else {
        let len = match len16(chunk, &mut pos) {
            Ok(len) => len,
            Err(e) => return Err(e),
        };
        if len > 32768 {
            proof { reveal_strlit("清单字符串过长"); }
            return Err(fail("清单字符串过长"));
        }
        if pos > n || (n - pos) / 2 < len {
            proof { reveal_strlit("安装包清单截断"); }
            return Err(fail("安装包清单截断"));
        }
        let mut units: Vec<u16> = Vec::new();
        let mut k: usize = 0;
        while k < len
            invariant
                k <= len <= 32768,
                pos + 2 * len <= n,
                n == chunk@.len(),
                units@ == units_at(chunk@, pos as int, k as int),
            decreases len - k,
        {
            let u: u16 = chunk[pos + 2 * k] as u16 + (chunk[pos + 2 * k + 1] as u16) * 256;
            units.push(u);
            proof { assert(units@ =~= units_at(chunk@, pos as int, k + 1)); }
            k = k + 1;
        }
        match utf16_text(units.as_slice()) {
            Some(s) => Ok(s),
            None => {
                proof { reveal_strlit("清单字符串编码错误"); }
                Err(fail("清单字符串编码错误"))
            },
        }
    }
}


/// The largest number of UTF-8 bytes the pool strings may take together.
pub const MAX_POOL_BYTES: usize = 8388608;

/// The pool strings `0..n` whose offsets are listed from `head` on, each
/// stored at `start` plus its offset, with the UTF-8 bytes they take together.
#[verifier::opaque]
pub open spec fn pool_entries(chunk: Seq<u8>, head: int, start: int, utf8: bool, n: nat) -> Result<(Seq<Seq<char>>, int), Seq<char>>
    decreases n,
{
    if n == 0 {
        Ok((Seq::empty(), 0))
    } else {
        match pool_entries(chunk, head, start, utf8, (n - 1) as nat) {
            Err(m) => Err(m),
            Ok((done, total)) => match le32(chunk, head + 4 * (n - 1)) {
                None => Err(truncated()),
                Some(off) => if start + off > usize::MAX {
                    Err("清单字符串偏移溢出"@)
                } else {
                    match pool_entry_spec(chunk, start + off, utf8) {
                        Err(m) => Err(m),
                        Ok(v) => if total + byte_len(v) > MAX_POOL_BYTES {
                            Err("清单字符串池过大"@)
                        } else {
                            Ok((done.push(v), total + byte_len(v)))
                        },
                    }
                },
            },
        }
    }
}

proof fn lemma_pool_entries_err_stays(chunk: Seq<u8>, head: int, start: int, utf8: bool, n: nat, later: nat)
    requires
        pool_entries(chunk, head, start, utf8, n) is Err,
        n <= later,
    ensures
        pool_entries(chunk, head, start, utf8, later) == pool_entries(chunk, head, start, utf8, n),
    decreases later - n,
{
    if n < later {
        lemma_pool_entries_err_stays(chunk, head, start, utf8, n, (later - 1) as nat);
        reveal_with_fuel(pool_entries, 1);
    }
}

proof fn lemma_pool_entries_step(chunk: Seq<u8>, head: int, start: int, utf8: bool, k: nat)
    ensures
        pool_entries(chunk, head, start, utf8, k + 1) == (match pool_entries(chunk, head, start, utf8, k) {
            Err(m) => Err(m),
            Ok((done, total)) => match le32(chunk, head + 4 * k) {
                None => Err(truncated()),
                Some(off) => if start + off > usize::MAX {
                    Err("清单字符串偏移溢出"@)
                } else {
                    match pool_entry_spec(chunk, start + off, utf8) {
                        Err(m) => Err(m),
                        Ok(v) => if total + byte_len(v) > MAX_POOL_BYTES {
                            Err("清单字符串池过大"@)
                        } else {
                            Ok((done.push(v), total + byte_len(v)))
                        },
                    }
                },
            },
        }),
        k == 0 ==> pool_entries(chunk, head, start, utf8, 0) == Ok::<(Seq<Seq<char>>, int), Seq<char>>((Seq::empty(), 0)),
{
    reveal_with_fuel(pool_entries, 1);
}

/// Whether the pool's flags say its strings are UTF-8.
pub open spec fn utf8_flag(flags: u32) -> bool {
    (flags / 256) % 2 == 1
}

/// The string pool of a chunk: its header gives the header size, the string
/// count (at most 20000), the flags and where the strings start.
#[verifier::opaque]
pub open spec fn strings_spec(chunk: Seq<u8>) -> Result<Seq<Seq<char>>, Seq<char>> {
    if chunk.len() < 24 {
        Err(truncated())
    } else {
        let count = le32(chunk, 8).unwrap();
        let head = le16(chunk, 2).unwrap();
        let start = le32(chunk, 20).unwrap();
        let flags = le32(chunk, 16).unwrap();
        if head < 28 || count > 20000 || head + count * 4 > chunk.len() || start > chunk.len() {
            Err("清单字符串池异常"@)
        } else {
            match pool_entries(chunk, head as int, start as int, utf8_flag(flags), count as nat) {
                Ok((v, _)) => Ok(v),
                Err(m) => Err(m),
            }
        }
    }
}

/// Reads the string pool of a chunk.
pub fn strings(chunk: &[u8]) -> (r: Result<Vec<String>, ImportError>)
    ensures
        match strings_spec(chunk@) {
            Ok(v) => r matches Ok(p) && crate::sync_cli::string_views(p@) == v,
            Err(m) => account_err(r, m),
        },
{
    proof { reveal_strlit("安装包清单截断"); reveal(strings_spec); }
    if chunk.len() < 24 {
        return Err(fail("安装包清单截断"));
    }
    let count = match u32at(chunk, 8) { Ok(v) => v, Err(e) => return Err(e) } as usize;
    let head = match u16at(chunk, 2) { Ok(v) => v, Err(e) => return Err(e) } as usize;
    let start = match u32at(chunk, 20) { Ok(v) => v, Err(e) => return Err(e) } as usize;
    let flags = match u32at(chunk, 16) { Ok(v) => v, Err(e) => return Err(e) };
    let utf8 = flags & 0x100 != 0;
    assert((flags & 0x100 != 0) == ((flags / 256) % 2 == 1)) by (bit_vector);
    if head < 28 || count > 20000 || head + count * 4 > chunk.len() || start > chunk.len() {
        proof { reveal_strlit("清单字符串池异常"); }
        return Err(fail("清单字符串池异常"));
    }
    let n = chunk.len();
    let mut result: Vec<String> = Vec::new();
    let mut total: usize = 0;
    let mut k: usize = 0;
    proof {
        assert(crate::sync_cli::string_views(result@) =~= Seq::<Seq<char>>::empty());
        lemma_pool_entries_step(chunk@, head as int, start as int, utf8, 0);
    }
    while k < count
        invariant
            k <= count <= 20000,
            n == chunk@.len(),
            result@.len() == k,
            head + count * 4 <= n,
            strings_spec(chunk@) == (match pool_entries(chunk@, head as int, start as int, utf8, count as nat) {
                Ok((v, _)) => Ok::<Seq<Seq<char>>, Seq<char>>(v),
                Err(m) => Err(m),
            }),
            start <= chunk@.len(),
            total <= MAX_POOL_BYTES,
            utf8 == utf8_flag(flags),
            pool_entries(chunk@, head as int, start as int, utf8, k as nat)
                == Ok::<(Seq<Seq<char>>, int), Seq<char>>((crate::sync_cli::string_views(result@), total as int)),
        decreases count - k,
    {
        assert(head + k * 4 + 4 <= head + count * 4) by (nonlinear_arith)
            requires k < count;
        let off = match u32at(chunk, head + k * 4) { Ok(v) => v, Err(e) => return Err(e) };
        let ghost next = (k + 1) as nat;
        proof { lemma_pool_entries_step(chunk@, head as int, start as int, utf8, k as nat); }
        let at = match start.checked_add(off as usize) {
            Some(at) => at,
            None => {
                proof {
                    reveal_strlit("清单字符串偏移溢出");
                    assert(le32(chunk@, head + 4 * k) == Some(off));
                    assert(pool_entries(chunk@, head as int, start as int, utf8, next) == Err::<(Seq<Seq<char>>, int), Seq<char>>("清单字符串偏移溢出"@));
                    lemma_pool_entries_err_stays(chunk@, head as int, start as int, utf8, next, count as nat);
                }
                return Err(fail("清单字符串偏移溢出"));
            },
        };
        let value = match pool_entry(chunk, at, utf8) {
            Ok(v) => v,
            Err(e) => {
                proof {
                    assert(le32(chunk@, head + 4 * k) == Some(off));
                    assert(pool_entries(chunk@, head as int, start as int, utf8, next)
                        == Err::<(Seq<Seq<char>>, int), Seq<char>>(pool_entry_spec(chunk@, at as int, utf8)->Err_0));
                    lemma_pool_entries_err_stays(chunk@, head as int, start as int, utf8, next, count as nat);
                }
                return Err(e);
            },
        };
        let ghost old_total = total;
        let size128 = utf8_byte_len(&str_chars(value.as_str()));
        if size128 > (MAX_POOL_BYTES - total) as u128 {
            proof {
                reveal_strlit("清单字符串池过大");
                lemma_pool_entries_err_stays(chunk@, head as int, start as int, utf8, next, count as nat);
            }
            return Err(fail("清单字符串池过大"));
        }
        let size = size128 as usize;
        assert(pool_entry_spec(chunk@, at as int, utf8) == Ok::<Seq<char>, Seq<char>>(value@));
        total = total + size;
        let ghost before = crate::sync_cli::string_views(result@);
        let ghost vv = value@;
        result.push(value);
        proof {
            assert(crate::sync_cli::string_views(result@) =~= before.push(vv));
            assert(le32(chunk@, head + 4 * k) == Some(off));
            assert(pool_entries(chunk@, head as int, start as int, utf8, (k + 1) as nat)
                == Ok::<(Seq<Seq<char>>, int), Seq<char>>((before.push(vv), old_total + byte_len(vv))));
        }
        k = k + 1;
    }
    Ok(result)
}


/// The namespace of Android's own attributes.
pub open spec fn android_namespace() -> Seq<char> {
    "http://schemas.android.com/apk/res/android"@
}

/// An attribute of the manifest element, stored at `pos`: its name, its
/// namespace (none: `u32::MAX`), whether that is Android's, and its value: the
/// raw string when there is one, else the typed value's string when its type
/// is 3, else the typed value in decimal.
pub open spec fn attribute_spec(chunk: Seq<u8>, pool: Seq<Seq<char>>, pos: int) -> Result<(Seq<char>, u32, bool, Seq<char>), Seq<char>> {
    match pool_get(pool, le32(chunk, pos + 4).unwrap()) {
        None => Err(bad_index()),
        Some(name) => {
            let raw = le32(chunk, pos + 8).unwrap();
            let ns = le32(chunk, pos).unwrap();
            let data = le32(chunk, pos + 16).unwrap();
            let android: Result<bool, Seq<char>> = if ns == u32::MAX {
                Ok(false)
            } else {
                match pool_get(pool, ns) {
                    None => Err(bad_index()),
                    Some(t) => Ok(t == android_namespace()),
                }
            };
            match android {
                Err(m) => Err(m),
                Ok(a) => {
                    let value: Result<Seq<char>, Seq<char>> = if raw != u32::MAX {
                        match pool_get(pool, raw) { None => Err(bad_index()), Some(t) => Ok(t) }
                    } else if chunk[pos + 15] == 3 {
                        match pool_get(pool, data) { None => Err(bad_index()), Some(t) => Ok(t) }
                    } else {
                        Ok(decimal_digits(data as nat))
                    };
                    match value {
                        Err(m) => Err(m),
                        Ok(v) => Ok((name, ns, a, v)),
                    }
                },
            }
        },
    }
}

/// The package (without namespace), version name and version code (in
/// Android's namespace) set by the first `n` attributes; a later one wins.
#[verifier::opaque]
pub open spec fn attributes_spec(chunk: Seq<u8>, pool: Seq<Seq<char>>, start: int, stride: int, n: nat)
    -> Result<(Option<Seq<char>>, Option<Seq<char>>, Option<Seq<char>>), Seq<char>>
    decreases n,
{
    if n == 0 {
        Ok((None, None, None))
    } else {
        match attributes_spec(chunk, pool, start, stride, (n - 1) as nat) {
            Err(m) => Err(m),
            Ok((p, v, c)) => match attribute_spec(chunk, pool, start + (n - 1) * stride) {
                Err(m) => Err(m),
                Ok((name, ns, android, value)) => if name == "package"@ && ns == u32::MAX {
                    Ok((Some(value), v, c))
                } else if name == "versionName"@ && android {
                    Ok((p, Some(value), c))
                } else if name == "versionCode"@ && android {
                    Ok((p, v, Some(value)))
                } else {
                    Ok((p, v, c))
                },
            },
        }
    }
}

proof fn lemma_attributes_step(chunk: Seq<u8>, pool: Seq<Seq<char>>, start: int, stride: int, k: nat)
    ensures
        attributes_spec(chunk, pool, start, stride, 0) == Ok::<(Option<Seq<char>>, Option<Seq<char>>, Option<Seq<char>>), Seq<char>>((None, None, None)),
        attributes_spec(chunk, pool, start, stride, k + 1) == (match attributes_spec(chunk, pool, start, stride, k) {
            Err(m) => Err(m),
            Ok((p, v, c)) => match attribute_spec(chunk, pool, start + k * stride) {
                Err(m) => Err(m),
                Ok((name, ns, android, value)) => if name == "package"@ && ns == u32::MAX {
                    Ok((Some(value), v, c))
                } else if name == "versionName"@ && android {
                    Ok((p, Some(value), c))
                } else if name == "versionCode"@ && android {
                    Ok((p, v, Some(value)))
                } else {
                    Ok((p, v, c))
                },
            },
        }),
{
    reveal_with_fuel(attributes_spec, 1);
}

proof fn lemma_attributes_err_stays(chunk: Seq<u8>, pool: Seq<Seq<char>>, start: int, stride: int, n: nat, later: nat)
    requires
        attributes_spec(chunk, pool, start, stride, n) is Err,
        n <= later,
    ensures
        attributes_spec(chunk, pool, start, stride, later) == attributes_spec(chunk, pool, start, stride, n),
    decreases later - n,
{
    if n < later {
        lemma_attributes_err_stays(chunk, pool, start, stride, n, (later - 1) as nat);
        lemma_attributes_step(chunk, pool, start, stride, (later - 1) as nat);
    }
}

/// A version code: one to fifteen ASCII digits.
pub open spec fn code_ok(s: Seq<char>) -> bool {
    0 < s.len() < 16 && ascii_digits(s)
}

/// The version name and code of the manifest element in `chunk`: its package
/// must be the official one, its version name dotted and its code a number.
pub open spec fn manifest_element_spec(chunk: Seq<u8>, pool: Seq<Seq<char>>) -> Result<(Seq<char>, Seq<char>), Seq<char>> {
    match (le16(chunk, 24), le16(chunk, 26), le16(chunk, 28)) {
        (Some(s0), Some(stride), Some(count)) => {
            let start = 16 + s0;
            if stride < 20 || start + count * stride > chunk.len() {
                Err("安装包清单属性异常"@)
            } else {
                match attributes_spec(chunk, pool, start, stride as int, count as nat) {
                    Err(m) => Err(m),
                    Ok((p, v, c)) => if p != Some("com.bilibili.star.bili"@) {
                        Err("官方安装包包名不匹配"@)
                    } else if !(v matches Some(vs) && dotted_version_spec(vs)) {
                        Err("安装包客户端版本异常"@)
                    } else if !(c matches Some(cs) && code_ok(cs)) {
                        Err("安装包版本编号异常"@)
                    } else {
                        Ok((v.unwrap(), c.unwrap()))
                    },
                }
            }
        },
        _ => Err(truncated()),
    }
}

fn opt_eq_str(v: &Option<String>, lit: &str) -> (r: bool)
    ensures
        r == (crate::sync_cli::opt_view(*v) == Some(lit@)),
{
    match v {
        Some(s) => chars_eq_str(&str_chars(s.as_str()), lit),
        None => false,
    }
}

/// Reads the attribute stored at `pos`.
fn read_attribute(chunk: &[u8], pool: &Vec<String>, pos: usize) -> (r: Result<(String, u32, bool, String), ImportError>)
    requires
        pos + 20 <= chunk@.len(),
    ensures
        match attribute_spec(chunk@, string_views(pool@), pos as int) {
            Ok((name, ns, android, value)) => r matches Ok(t) && t.0@ == name && t.1 == ns && t.2 == android && t.3@ == value,
            Err(m) => account_err(r, m),
        },
{
    let n = chunk.len();
    let name_index = match u32at(chunk, pos + 4) { Ok(v) => v, Err(e) => return Err(e) };
    let name = match string_at(pool, name_index) { Ok(s) => s.to_owned(), Err(e) => return Err(e) };
    let raw = match u32at(chunk, pos + 8) { Ok(v) => v, Err(e) => return Err(e) };
    let ns = match u32at(chunk, pos) { Ok(v) => v, Err(e) => return Err(e) };
    let android = if ns != u32::MAX {
        match string_at(pool, ns) {
            Ok(s) => {
                proof { reveal_strlit("http://schemas.android.com/apk/res/android"); }
                chars_eq_str(&str_chars(s), "http://schemas.android.com/apk/res/android")
            },
            Err(e) => return Err(e),
        }
    } else {
        false
    };
    let data = match u32at(chunk, pos + 16) { Ok(v) => v, Err(e) => return Err(e) };
    let value = if raw != u32::MAX {
        match string_at(pool, raw) { Ok(s) => s.to_owned(), Err(e) => return Err(e) }
    } else if chunk[pos + 15] == 3 {
        match string_at(pool, data) { Ok(s) => s.to_owned(), Err(e) => return Err(e) }
    } else {
        string_from_chars(&u64_to_decimal(data as u64))
    };
    Ok((name, ns, android, value))
}

/// Reads the manifest element's package, version name and version code.
fn manifest_attributes(chunk: &[u8], pool: &Vec<String>, start: usize, stride: usize, count: usize)
    -> (r: Result<(Option<String>, Option<String>, Option<String>), ImportError>)
    requires
        stride >= 20,
        start + count * stride <= chunk@.len(),
    ensures
        match attributes_spec(chunk@, string_views(pool@), start as int, stride as int, count as nat) {
            Ok((p, v, c)) => r matches Ok(t) && crate::sync_cli::opt_view(t.0) == p
                && crate::sync_cli::opt_view(t.1) == v && crate::sync_cli::opt_view(t.2) == c,
            Err(m) => account_err(r, m),
        },
{
    let ghost views = string_views(pool@);
    let n = chunk.len();
    let mut package: Option<String> = None;
    let mut version: Option<String> = None;
    let mut code: Option<String> = None;
    proof { lemma_attributes_step(chunk@, views, start as int, stride as int, 0); }
    let mut k: usize = 0;
    while k < count
        invariant
            k <= count,
            stride >= 20,
            n == chunk@.len(),
            start + count * stride <= n,
            views == string_views(pool@),
            attributes_spec(chunk@, views, start as int, stride as int, k as nat)
                == Ok::<(Option<Seq<char>>, Option<Seq<char>>, Option<Seq<char>>), Seq<char>>((
                    crate::sync_cli::opt_view(package), crate::sync_cli::opt_view(version), crate::sync_cli::opt_view(code))),
        decreases count - k,
    {
        assert(start + k * stride + 20 <= start + count * stride && k * stride <= count * stride) by (nonlinear_arith)
            requires k < count, stride >= 20;
        let pos = start + k * stride;
        proof { lemma_attributes_step(chunk@, views, start as int, stride as int, k as nat); }
        let (name, ns, android, value) = match read_attribute(chunk, pool, pos) {
            Ok(t) => t,
            Err(e) => {
                proof { lemma_attributes_err_stays(chunk@, views, start as int, stride as int, (k + 1) as nat, count as nat); }
                return Err(e);
            },
        };
        let name_chars = str_chars(name.as_str());
        proof {
            reveal_strlit("package");
            reveal_strlit("versionName");
            reveal_strlit("versionCode");
        }
        if chars_eq_str(&name_chars, "package") && ns == u32::MAX {
            package = Some(value);
        } else if chars_eq_str(&name_chars, "versionName") && android {
            version = Some(value);
        } else if chars_eq_str(&name_chars, "versionCode") && android {
            code = Some(value);
        }
        k = k + 1;
    }
    Ok((package, version, code))
}

/// Reads the version name and code of the manifest element in `chunk`.
fn manifest_element(chunk: &[u8], pool: &Vec<String>) -> (r: Result<(String, String), ImportError>)
    ensures
        match manifest_element_spec(chunk@, string_views(pool@)) {
            Ok((v, c)) => r matches Ok(t) && t.0@ == v && t.1@ == c,
            Err(m) => account_err(r, m),
        },
{
    let s0 = match u16at(chunk, 24) { Ok(v) => v, Err(e) => return Err(e) };
    let stride = match u16at(chunk, 26) { Ok(v) => v, Err(e) => return Err(e) } as usize;
    let count = match u16at(chunk, 28) { Ok(v) => v, Err(e) => return Err(e) } as usize;
    let start = 16 + s0 as usize;
    assert(count * stride <= 65535 * 65535) by (nonlinear_arith)
        requires count <= 65535, stride <= 65535;
    if stride < 20 || (start as u64) + (count as u64) * (stride as u64) > chunk.len() as u64 {
        proof { reveal_strlit("安装包清单属性异常"); }
        return Err(fail("安装包清单属性异常"));
    }
    let (package, version, code) = match manifest_attributes(chunk, pool, start, stride, count) {
        Ok(t) => t,
        Err(e) => return Err(e),
    };
    proof { reveal_strlit("com.bilibili.star.bili"); }
    if !opt_eq_str(&package, "com.bilibili.star.bili") {
        proof { reveal_strlit("官方安装包包名不匹配"); }
        return Err(fail("官方安装包包名不匹配"));
    }
    let version = match version {
        Some(v) => {
            if dotted_version(v.as_str()) {
                v
            } else {
                proof { reveal_strlit("安装包客户端版本异常"); }
                return Err(fail("安装包客户端版本异常"));
            }
        },
        None => {
            proof { reveal_strlit("安装包客户端版本异常"); }
            return Err(fail("安装包客户端版本异常"));
        },
    };
    let code = match code {
        Some(c) => {
            let chars = str_chars(c.as_str());
            if chars.len() > 0 && chars.len() < 16 && all_ascii_digits(&chars) {
                c
            } else {
                proof { reveal_strlit("安装包版本编号异常"); }
                return Err(fail("安装包版本编号异常"));
            }
        },
        None => {
            proof { reveal_strlit("安装包版本编号异常"); }
            return Err(fail("安装包版本编号异常"));
        },
    };
    Ok((version, code))
}


/// The message for a manifest whose header is wrong.
pub open spec fn bad_format() -> Seq<char> {
    "安装包清单格式异常"@
}

/// The version name and code from the chunks between `at` and `total`, the
/// string pool read so far being `pool`: a string pool chunk (type 1) replaces
/// the pool, and the first element start chunk (type 0x102) named "manifest"
/// answers.
pub open spec fn chunks_spec(bytes: Seq<u8>, at: int, total: int, pool: Seq<Seq<char>>) -> Result<(Seq<char>, Seq<char>), Seq<char>>
    decreases total - at,
{
    if at >= total {
        Err("安装包没有提供版本信息"@)
    } else {
        match (le16(bytes, at), le32(bytes, at + 4)) {
            (Some(kind), Some(size)) => if size < 8 || size > total - at {
                Err("安装包清单块异常"@)
            } else {
                let chunk = bytes.subrange(at, at + size);
                let next_pool: Result<Seq<Seq<char>>, Seq<char>> = if kind == 1 { strings_spec(chunk) } else { Ok(pool) };
                match next_pool {
                    Err(m) => Err(m),
                    Ok(p) => if kind == 0x102 {
                        match le32(chunk, 20) {
                            None => Err(truncated()),
                            Some(ix) => match pool_get(p, ix) {
                                None => Err(bad_index()),
                                Some(name) => if name == "manifest"@ {
                                    manifest_element_spec(chunk, p)
                                } else {
                                    chunks_spec(bytes, at + size, total, p)
                                },
                            },
                        }
                    } else {
                        chunks_spec(bytes, at + size, total, p)
                    },
                }
            },
            _ => Err(truncated()),
        }
    }
}

/// The client version name and code of a binary manifest of at most
/// `MAX_MANIFEST` bytes: its header gives the magic 3, the header size and
/// the total size, then come the chunks.
pub open spec fn manifest_spec(bytes: Seq<u8>) -> Result<(Seq<char>, Seq<char>), Seq<char>> {
    if bytes.len() > MAX_MANIFEST {
        Err(bad_format())
    } else {
        match le16(bytes, 0) {
            None => Err(truncated()),
            Some(magic) => if magic != 3 {
                Err(bad_format())
            } else {
                match (le32(bytes, 4), le16(bytes, 2)) {
                    (Some(total), Some(at)) => if total > bytes.len() || at < 8 {
                        Err(truncated())
                    } else {
                        chunks_spec(bytes, at as int, total as int, Seq::empty())
                    },
                    _ => Err(truncated()),
                }
            },
        }
    }
}

/// Reads the client version name and code out of a binary `AndroidManifest.xml`.
pub fn manifest_version(bytes: &[u8]) -> (r: Result<(String, String), ImportError>)
    ensures
        match manifest_spec(bytes@) {
            Ok((v, c)) => r matches Ok(t) && t.0@ == v && t.1@ == c,
            Err(m) => account_err(r, m),
        },
{
    proof {
        reveal_strlit("安装包清单格式异常");
        reveal_strlit("安装包清单截断");
    }
    let n = bytes.len();
    if n > MAX_MANIFEST {
        return Err(fail("安装包清单格式异常"));
    }
    let magic = match u16at(bytes, 0) { Ok(v) => v, Err(e) => return Err(e) };
    if magic != 3 {
        return Err(fail("安装包清单格式异常"));
    }
    let total = match u32at(bytes, 4) { Ok(v) => v, Err(e) => return Err(e) } as usize;
    let mut at = match u16at(bytes, 2) { Ok(v) => v, Err(e) => return Err(e) } as usize;
    if total > n || at < 8 {
        return Err(fail("安装包清单截断"));
    }
    let mut pool: Vec<String> = Vec::new();
    proof { assert(string_views(pool@) =~= Seq::<Seq<char>>::empty()); }
    while at < total
        invariant
            n == bytes@.len(),
            n <= MAX_MANIFEST,
            total <= n,
            manifest_spec(bytes@) == chunks_spec(bytes@, at as int, total as int, string_views(pool@)),
        decreases total - at,
    {
        let kind = match u16at(bytes, at) { Ok(v) => v, Err(e) => return Err(e) };
        let size = match u32at(bytes, at + 4) { Ok(v) => v, Err(e) => return Err(e) } as usize;
        if size < 8 || size > total - at {
            proof { reveal_strlit("安装包清单块异常"); }
            return Err(fail("安装包清单块异常"));
        }
        let chunk = vstd::slice::slice_subrange(bytes, at, at + size);
        assert(chunk@ == bytes@.subrange(at as int, at + size));
        if kind == 1 {
            pool = match strings(chunk) { Ok(p) => p, Err(e) => return Err(e) };
        }
        if kind == 0x102 {
            let ix = match u32at(chunk, 20) { Ok(v) => v, Err(e) => return Err(e) };
            let name = match string_at(&pool, ix) { Ok(s) => s, Err(e) => return Err(e) };
            proof { reveal_strlit("manifest"); }
            if chars_eq_str(&str_chars(name), "manifest") {
                return manifest_element(chunk, &pool);
            }
        }
        at = at + size;
    }
    proof { reveal_strlit("安装包没有提供版本信息"); }
    Err(fail("安装包没有提供版本信息"))
}


/// A manifest cut short of the size its header declares is refused.
pub proof fn lemma_cut_manifest_rejected(bytes: Seq<u8>, k: int)
    requires
        manifest_spec(bytes) is Ok,
        le32(bytes, 4) matches Some(total) && 0 <= k < total,
    ensures
        manifest_spec(bytes.subrange(0, k)) is Err,
{
    let p = bytes.subrange(0, k);
    if k >= 2 {
        assert(le16(p, 0) == le16(bytes, 0));
    }
    if k >= 8 {
        assert(le32(p, 4) == le32(bytes, 4));
    }
}

proof fn lemma_chunks_answer_valid(bytes: Seq<u8>, at: int, total: int, pool: Seq<Seq<char>>)
    ensures
        chunks_spec(bytes, at, total, pool) matches Ok((v, c)) ==> dotted_version_spec(v) && code_ok(c),
    decreases total - at,
{
    if at < total {
        if let (Some(kind), Some(size)) = (le16(bytes, at), le32(bytes, at + 4)) {
            if !(size < 8 || size > total - at) {
                let chunk = bytes.subrange(at, at + size as int);
                let next_pool: Result<Seq<Seq<char>>, Seq<char>> = if kind == 1 { strings_spec(chunk) } else { Ok(pool) };
                if let Ok(p) = next_pool {
                    lemma_chunks_answer_valid(bytes, at + size, total, p);
                }
            }
        }
    }
}

/// A version read from a manifest is a dotted version with a numeric code.
pub proof fn lemma_manifest_version_is_valid(bytes: Seq<u8>)
    ensures
        manifest_spec(bytes) matches Ok((v, c)) ==> dotted_version_spec(v) && code_ok(c),
{
    if let (Some(total), Some(at)) = (le32(bytes, 4), le16(bytes, 2)) {
        lemma_chunks_answer_valid(bytes, at as int, total as int, Seq::empty());
    }
}

} // verus!
