//! The protobuf wire format as the game client speaks it: varints, length-delimited
//! fields, the login request, and a field-by-field reader.
use vstd::prelude::*;
use vstd::string::*;
use crate::text::{decimal_digits, string_from_chars, u64_to_decimal};
use vstd::bytes::{spec_u32_from_le_bytes, spec_u64_from_le_bytes, u32_from_le_bytes, u64_from_le_bytes};

verus! {

/// Why an account import failed.
#[derive(Debug, Clone, PartialEq, Eq)]
pub enum ImportError {
    ReadPersist(String),
    ParsePersist(String),
    MissingPersistField(&'static str),
    Http(String),
    HttpStatus { status: u16, context: String },
    MissingHeader(&'static str),
    Crypto(String),
    Protobuf(String),
    Account(String),
}

/// The varint encoding of `v`: seven bits per byte, low bits first, the high bit set on
/// every byte but the last.
pub open spec fn varint_spec(v: u64) -> Seq<u8>
    decreases v,
{
    if v < 0x80 {
        seq![v as u8]
    } else {
        proof {
            assert(v >= 0x80 ==> v >> 7 < v) by (bit_vector);
        }
        seq![((v & 0x7f) | 0x80) as u8] + varint_spec(v >> 7)
    }
}

/// Appends the varint encoding of `value`.
pub fn write_varint(out: &mut Vec<u8>, value: u64)
    ensures
        final(out)@ == old(out)@ + varint_spec(value),
    decreases value,
{
    if value >= 0x80 {
        let byte = ((value & 0x7f) as u8) | 0x80;
        proof {
            assert(((value & 0x7f) as u8) | 0x80 == ((value & 0x7f) | 0x80) as u8) by (bit_vector);
            assert(value >> 7 < value) by (bit_vector) requires value >= 0x80;
        }
        let ghost start = out@;
        out.push(byte);
        write_varint(out, value >> 7);
        proof {
            assert(out@ =~= start + varint_spec(value));
        }
    } else {
        out.push(value as u8);
        proof {
            assert(out@ =~= old(out)@ + varint_spec(value));
        }
    }
}

/// A length-delimited field: its key (`tag`, wire type 2), its length, and its bytes.
pub open spec fn field_spec(tag: u64, value: Seq<u8>) -> Seq<u8> {
    varint_spec((tag << 3) | 2) + varint_spec(value.len() as u64) + value
}

/// Appends a length-delimited field.
pub fn field_bytes(out: &mut Vec<u8>, tag: u64, value: &[u8])
    ensures
        final(out)@ == old(out)@ + field_spec(tag, value@),
{
    let ghost start = out@;
    write_varint(out, (tag << 3) | 2);
    write_varint(out, value.len() as u64);
    let mut i: usize = 0;
    let ghost mid = out@;
    while i < value.len()
        invariant
            i <= value@.len(),
            out@ =~= mid + value@.subrange(0, i as int),
        decreases value@.len() - i,
    {
        out.push(value[i]);
        i = i + 1;
    }
    proof {
        assert(value@.subrange(0, value@.len() as int) =~= value@);
        assert(out@ =~= start + field_spec(tag, value@));
    }
}

/// Appends a length-delimited field holding a string's UTF-8 bytes.
pub fn field_string(out: &mut Vec<u8>, tag: u64, value: &str)
    ensures
        final(out)@ == old(out)@ + field_spec(tag, value.spec_bytes()),
{
    field_bytes(out, tag, value.as_bytes());
}

/// The SDK part of the stored login state.
#[derive(Debug, Clone, PartialEq, Eq)]
pub struct PersistSdk {
    pub uid: String,
    pub access_key: String,
}

/// The Unity client part of the stored login state.
#[derive(Debug, Clone, PartialEq, Eq)]
pub struct PersistUnity {
    pub unity_channel_id: String,
    pub unity_platform_id: String,
    pub client_platform: String,
    pub login_platform: String,
    pub operating_system: String,
    pub device_model: String,
    pub client_version: String,
    pub udid_short: String,
    pub client_package: String,
}

/// The stored login state of a device.
#[derive(Debug, Clone, PartialEq, Eq)]
pub struct Persist {
    pub device_id: String,
    pub sdk: PersistSdk,
    pub unity: PersistUnity,
}

/// The UTF-8 bytes of a string.
pub open spec fn utf8(s: String) -> Seq<u8> {
    vstd::utf8::encode_utf8(s@)
}

/// The login request: uid, access key, platform, model, system and version as fields 1 to 6,
/// the device identifiers as a nested message in field 7, and the package as field 8.
pub open spec fn login_request_spec(p: Persist) -> Seq<u8> {
    let udid = field_spec(1, utf8(p.unity.udid_short)) + field_spec(2, utf8(p.device_id));
    field_spec(1, utf8(p.sdk.uid))
        + field_spec(2, utf8(p.sdk.access_key))
        + field_spec(3, utf8(p.unity.login_platform))
        + field_spec(4, utf8(p.unity.device_model))
        + field_spec(5, utf8(p.unity.operating_system))
        + field_spec(6, utf8(p.unity.client_version))
        + field_spec(7, udid)
        + field_spec(8, utf8(p.unity.client_package))
}

/// The encoded login request of a device.
pub fn build_login_request(persist: &Persist) -> (r: Vec<u8>)
    ensures
        r@ == login_request_spec(*persist),
{
    let mut out: Vec<u8> = Vec::new();
    field_string(&mut out, 1, persist.sdk.uid.as_str());
    field_string(&mut out, 2, persist.sdk.access_key.as_str());
    field_string(&mut out, 3, persist.unity.login_platform.as_str());
    field_string(&mut out, 4, persist.unity.device_model.as_str());
    field_string(&mut out, 5, persist.unity.operating_system.as_str());
    field_string(&mut out, 6, persist.unity.client_version.as_str());
    let mut udid: Vec<u8> = Vec::new();
    field_string(&mut udid, 1, persist.unity.udid_short.as_str());
    field_string(&mut udid, 2, persist.device_id.as_str());
    field_bytes(&mut out, 7, udid.as_slice());
    field_string(&mut out, 8, persist.unity.client_package.as_str());
    proof {
        assert(out@ =~= login_request_spec(*persist));
    }
    out
}

/// Length of the varint at `off`, given `n` of its bytes already read: it ends at the first
/// byte below 0x80, within ten bytes and within the buffer.
pub open spec fn varint_len_from(buf: Seq<u8>, off: int, n: int) -> Option<int>
    decreases 10 - n,
{
    if n >= 10 || n < 0 || off + n >= buf.len() || off < 0 {
        None
    } else if n == 9 && buf[off + n] > 1 {
        None
    } else if buf[off + n] < 0x80 {
        Some(n + 1)
    } else {
        varint_len_from(buf, off, n + 1)
    }
}

/// Length of the varint at `off`, if one ends there.
pub open spec fn varint_len(buf: Seq<u8>, off: int) -> Option<int> {
    varint_len_from(buf, off, 0)
}

/// The low seven bits of the first `n` bytes at `off`, each shifted by seven bits per byte.
pub open spec fn varint_bits(buf: Seq<u8>, off: int, n: int) -> u64
    decreases n,
{
    if n <= 0 {
        0
    } else {
        varint_bits(buf, off, n - 1) | (((buf[off + n - 1] & 0x7f) as u64) << ((7 * (n - 1)) as u32))
    }
}

pub proof fn lemma_varint_len_from_bounds(buf: Seq<u8>, off: int, n: int)
    requires
        0 <= n,
    ensures
        varint_len_from(buf, off, n) matches Some(k) ==> n < k <= 10 && off + k <= buf.len()
            && buf[off + k - 1] < 0x80 && 0 <= off,
    decreases 10 - n,
{
    if n < 10 && off + n < buf.len() && 0 <= off && buf[off + n] >= 0x80 && !(n == 9 && buf[off + n] > 1) {
        lemma_varint_len_from_bounds(buf, off, n + 1);
    }
}

/// Where a failed varint read leaves the offset: past at most ten bytes, not past the end.
pub open spec fn varint_fail_offset(len: int, off: int) -> int {
    if off >= len { off } else if off + 10 <= len { off + 10 } else { len }
}

/// Reads the varint at `*off` and moves past it. Fails with "bad varint" when no byte below
/// 0x80 ends it within ten bytes and the buffer, or when its value does not fit 64 bits.
pub fn read_varint(buf: &[u8], off: &mut usize) -> (r: Result<u64, ImportError>)
    ensures
        match varint_len(buf@, *old(off) as int) {
            Some(n) => r == Ok::<u64, ImportError>(varint_bits(buf@, *old(off) as int, n))
                && *final(off) == *old(off) + n,
            None => (r matches Err(ImportError::Protobuf(m)) && m@ == "bad varint"@)
                && *final(off) == varint_fail_offset(buf@.len() as int, *old(off) as int),
        },
{
    let ghost start = *off as int;
    let mut value: u64 = 0;
    let mut shift: u32 = 0;
    let mut n: usize = 0;
    while *off < buf.len()
        invariant_except_break
            n < 10,
            shift == 7 * n,
            *off as int == start + n,
            start == *old(off) as int,
            0 <= start,
            n > 0 ==> *off <= buf@.len(),
            value == varint_bits(buf@, start, n as int),
            varint_len(buf@, start) == varint_len_from(buf@, start, n as int),
        ensures
            varint_len(buf@, start) is None,
            *off as int == varint_fail_offset(buf@.len() as int, start),
        decreases buf@.len() - *off,
    {
        let b = buf[*off];
        proof {
            assert(b == buf@[start + n]);
        }
        *off = *off + 1;
        if n == 9 && b > 1 {
            break;
        }
        value = value | (((b & 0x7f) as u64) << shift);
        n = n + 1;
        proof {
            assert(value == varint_bits(buf@, start, n as int));
        }
        if b < 0x80 {
            proof {
                let k = (n - 1) as int;
                assert(0 <= k < 10);
                assert(start + k < buf@.len());
                assert(0 <= start);
                assert(buf@[start + k] < 0x80);
                assert(varint_len_from(buf@, start, k) == Some(k + 1));
            }
            return Ok(value);
        }
        shift = shift + 7;
        if shift > 63 {
            break;
        }
    }
    proof { reveal_strlit("bad varint"); }
    Err(ImportError::Protobuf("bad varint".to_owned()))
}

proof fn lemma_varint_byte_steps(v: u64, s: u32)
    ensures
        s <= 56 ==> ((v >> s) >> 7u64) == v >> ((s + 7) as u32),
        s <= 56 ==> ((v & !(0xffff_ffff_ffff_ffffu64 << s))
            | (((((((v >> s) & 0x7f) | 0x80) as u8) & 0x7f) as u64) << s))
            == v & !(0xffff_ffff_ffff_ffffu64 << ((s + 7) as u32)),
        s <= 63 && (v >> s) < 0x80 ==> ((v & !(0xffff_ffff_ffff_ffffu64 << s))
            | (((((v >> s) as u8) & 0x7f) as u64) << s)) == v,
        s == 63 ==> (v >> s) <= 1,
        s == 0 ==> (v >> s) == v && (v & !(0xffff_ffff_ffff_ffffu64 << s)) == 0,
{
    assert(s <= 56 ==> ((v >> s) >> 7u64) == v >> ((s + 7) as u32)) by (bit_vector);
    assert(s <= 56 ==> ((v & !(0xffff_ffff_ffff_ffffu64 << s))
        | (((((((v >> s) & 0x7f) | 0x80) as u8) & 0x7f) as u64) << s))
        == v & !(0xffff_ffff_ffff_ffffu64 << ((s + 7) as u32))) by (bit_vector);
    assert(s <= 63 && (v >> s) < 0x80 ==> ((v & !(0xffff_ffff_ffff_ffffu64 << s))
        | (((((v >> s) as u8) & 0x7f) as u64) << s)) == v) by (bit_vector);
    assert(s == 63 ==> (v >> s) <= 1) by (bit_vector);
    assert(s == 0 ==> (v >> s) == v && (v & !(0xffff_ffff_ffff_ffffu64 << s)) == 0) by (bit_vector);
}

/// Reading the varint of `v >> 7d` that stands `d` bytes into a varint, with
/// the low `7d` bits of `v` already gathered, finishes the varint of `v`.
proof fn lemma_varint_reads_back_from(buf: Seq<u8>, off: int, d: int, v: u64)
    requires
        0 <= off,
        0 <= d <= 9,
        off + d + varint_spec(v >> ((7 * d) as u32)).len() <= buf.len(),
        buf.subrange(off + d, off + d + varint_spec(v >> ((7 * d) as u32)).len())
            == varint_spec(v >> ((7 * d) as u32)),
        varint_bits(buf, off, d) == v & !(0xffff_ffff_ffff_ffffu64 << ((7 * d) as u32)),
    ensures
        d + varint_spec(v >> ((7 * d) as u32)).len() <= 10,
        varint_len_from(buf, off, d) == Some(d + varint_spec(v >> ((7 * d) as u32)).len()),
        varint_bits(buf, off, d + varint_spec(v >> ((7 * d) as u32)).len()) == v,
    decreases 10 - d,
{
    let s = (7 * d) as u32;
    let w = v >> s;
    let enc = varint_spec(w);
    lemma_varint_byte_steps(v, s);
    assert(buf[off + d] == enc[0]);
    if w < 0x80 {
        assert(enc =~= seq![w as u8]);
        assert(d == 9 ==> w <= 1);
        assert(varint_bits(buf, off, d + 1) == v);
    } else {
        assert(d < 9);
        let w2 = v >> ((7 * (d + 1)) as u32);
        assert(w >> 7u64 == w2);
        assert(enc =~= seq![((w & 0x7f) | 0x80) as u8] + varint_spec(w2));
        let b = buf[off + d];
        assert(b >= 0x80) by (bit_vector)
            requires b == ((w & 0x7f) | 0x80) as u8;
        assert(buf.subrange(off + d + 1, off + d + 1 + varint_spec(w2).len()) =~= varint_spec(w2)) by {
            assert forall|k: int| 0 <= k < varint_spec(w2).len() implies
                buf.subrange(off + d + 1, off + d + 1 + varint_spec(w2).len())[k] == varint_spec(w2)[k] by {
                assert(buf.subrange(off + d, off + d + enc.len())[k + 1] == enc[k + 1]);
            }
        }
        assert(varint_bits(buf, off, d + 1) == v & !(0xffff_ffff_ffff_ffffu64 << ((7 * (d + 1)) as u32)));
        lemma_varint_reads_back_from(buf, off, d + 1, v);
    }
}

/// Round trip: the varint that `write_varint` writes for `v` is one to ten
/// bytes long, and reading a varint where it starts, whatever stands before
/// and after it, gives back `v` and ends right after it.
pub proof fn lemma_varint_round_trip(v: u64, before: Seq<u8>, after: Seq<u8>)
    ensures
        1 <= varint_spec(v).len() <= 10,
        varint_len(before + varint_spec(v) + after, before.len() as int) == Some(varint_spec(v).len() as int),
        varint_bits(before + varint_spec(v) + after, before.len() as int, varint_spec(v).len() as int) == v,
{
    let buf = before + varint_spec(v) + after;
    lemma_varint_byte_steps(v, 0);
    assert(buf.subrange(before.len() as int, (before.len() + varint_spec(v).len()) as int) =~= varint_spec(v));
    lemma_varint_reads_back_from(buf, before.len() as int, 0, v);
}

/// Takes the `size` bytes at `*off` and moves past them; fails with "length overrun" when
/// they run past the end of the buffer.
pub fn read_exact(buf: &[u8], off: &mut usize, size: usize) -> (r: Result<Vec<u8>, ImportError>)
    ensures
        *old(off) + size > buf@.len() ==> (r matches Err(ImportError::Protobuf(m)) && m@ == "length overrun"@)
            && *final(off) == *old(off),
        *old(off) + size <= buf@.len() ==> (r matches Ok(data) && data@ == buf@.subrange(*old(off) as int, *old(off) + size))
            && *final(off) == *old(off) + size,
{
    if size > buf.len() || *off > buf.len() - size {
        proof { reveal_strlit("length overrun"); }
        return Err(ImportError::Protobuf("length overrun".to_owned()));
    }
    let start = *off;
    let len = buf.len();
    let mut data: Vec<u8> = Vec::new();
    let mut i: usize = 0;
    while i < size
        invariant
            len == buf@.len(),
            start + size <= len,
            i <= size,
            data@ =~= buf@.subrange(start as int, start + i),
        decreases size - i,
    {
        data.push(buf[start + i]);
        i = i + 1;
    }
    *off = start + size;
    Ok(data)
}

/// The value of one field.
#[derive(Debug, Clone, PartialEq, Eq)]
pub enum ProtoValue {
    Varint(u64),
    Bytes(Vec<u8>),
    Fixed32(u32),
    Fixed64(u64),
}

/// One field of a message: its number, wire type and value.
#[derive(Debug, Clone, PartialEq, Eq)]
pub struct ProtoField {
    pub field: u64,
    pub wire: u8,
    pub value: ProtoValue,
}

/// A field as read: number, wire type, numeric value (0 for bytes) and bytes (empty for numbers).
pub open spec fn field_is(f: ProtoField, t: (u64, u8, u64, Seq<u8>)) -> bool {
    &&& f.field == t.0
    &&& f.wire == t.1
    &&& match f.value {
        ProtoValue::Varint(v) => t.1 == 0 && v == t.2,
        ProtoValue::Fixed64(v) => t.1 == 1 && v == t.2,
        ProtoValue::Bytes(b) => t.1 == 2 && b@ == t.3,
        ProtoValue::Fixed32(v) => t.1 == 5 && v == t.2,
    }
}

/// The error message for an unsupported wire type.
pub open spec fn unsupported_wire_message(wire: u8) -> Seq<char> {
    "unsupported wire type "@ + decimal_digits(wire as nat)
}

/// The field at `off` and where the next one begins, or the reader's error message.
pub open spec fn field_at(buf: Seq<u8>, off: int) -> Result<((u64, u8, u64, Seq<u8>), int), Seq<char>> {
    match varint_len(buf, off) {
        None => Err("bad varint"@),
        Some(n) => {
            let key = varint_bits(buf, off, n);
            let field = key >> 3;
            let wire = (key & 7) as u8;
            let p = off + n;
            if wire == 0 {
                match varint_len(buf, p) {
                    None => Err("bad varint"@),
                    Some(m) => Ok(((field, wire, varint_bits(buf, p, m), Seq::empty()), p + m)),
                }
            } else if wire == 1 {
                if p + 8 > buf.len() {
                    Err("length overrun"@)
                } else {
                    Ok(((field, wire, spec_u64_from_le_bytes(buf.subrange(p, p + 8)), Seq::empty()), p + 8))
                }
            } else if wire == 2 {
                match varint_len(buf, p) {
                    None => Err("bad varint"@),
                    Some(m) => {
                        let size = varint_bits(buf, p, m) as usize as int;
                        let q = p + m;
                        if q + size > buf.len() {
                            Err("length overrun"@)
                        } else {
                            Ok(((field, wire, 0, buf.subrange(q, q + size)), q + size))
                        }
                    },
                }
            } else if wire == 5 {
                if p + 4 > buf.len() {
                    Err("length overrun"@)
                } else {
                    Ok(((field, wire, spec_u32_from_le_bytes(buf.subrange(p, p + 4)) as u64, Seq::empty()), p + 4))
                }
            } else {
                Err(unsupported_wire_message(wire))
            }
        },
    }
}

pub proof fn lemma_field_at_advances(buf: Seq<u8>, off: int)
    ensures
        field_at(buf, off) matches Ok((_, next)) ==> off < next <= buf.len(),
{
    lemma_varint_len_from_bounds(buf, off, 0);
    if let Some(n) = varint_len(buf, off) {
        lemma_varint_len_from_bounds(buf, off + n, 0);
    }
}

/// The fields of `buf` from `off` on, or the first error message.
pub open spec fn fields_from(buf: Seq<u8>, off: int) -> Result<Seq<(u64, u8, u64, Seq<u8>)>, Seq<char>>
    decreases buf.len() - off,
{
    if off >= buf.len() {
        Ok(Seq::empty())
    } else {
        match field_at(buf, off) {
            Err(m) => Err(m),
            Ok((f, next)) => {
                proof { lemma_field_at_advances(buf, off); }
                match fields_from(buf, next) {
                    Ok(rest) => Ok(seq![f] + rest),
                    Err(m) => Err(m),
                }
            },
        }
    }
}

/// Reads one field at `*off` and moves past it.
fn read_field(buf: &[u8], off: &mut usize) -> (r: Result<ProtoField, ImportError>)
    requires
        *old(off) < buf@.len(),
    ensures
        match field_at(buf@, *old(off) as int) {
            Ok((t, next)) => (r matches Ok(f) && field_is(f, t)) && *final(off) == next,
            Err(m) => r matches Err(ImportError::Protobuf(e)) && e@ == m,
        },
{
    let key = match read_varint(buf, off) {
        Ok(k) => k,
        Err(e) => return Err(e),
    };
    let field = key >> 3;
    let wire = (key & 7) as u8;
    proof { lemma_varint_len_from_bounds(buf@, *old(off) as int, 0); }
    if wire == 0 {
        match read_varint(buf, off) {
            Ok(v) => Ok(ProtoField { field, wire, value: ProtoValue::Varint(v) }),
            Err(e) => Err(e),
        }
    } else if wire == 1 {
        match read_exact(buf, off, 8) {
            Ok(data) => {
                let v = u64_from_le_bytes(data.as_slice());
                Ok(ProtoField { field, wire, value: ProtoValue::Fixed64(v) })
            },
            Err(e) => Err(e),
        }
    } else if wire == 2 {
        let size = match read_varint(buf, off) {
            Ok(v) => v as usize,
            Err(e) => return Err(e),
        };
        match read_exact(buf, off, size) {
            Ok(data) => Ok(ProtoField { field, wire, value: ProtoValue::Bytes(data) }),
            Err(e) => Err(e),
        }
    } else if wire == 5 {
        match read_exact(buf, off, 4) {
            Ok(data) => {
                let v = u32_from_le_bytes(data.as_slice());
                Ok(ProtoField { field, wire, value: ProtoValue::Fixed32(v) })
            },
            Err(e) => Err(e),
        }
    } else {
        let digits = u64_to_decimal(wire as u64);
        let mut message = str_chars_vec("unsupported wire type ");
        let mut i: usize = 0;
        let ghost head = message@;
        while i < digits.len()
            invariant
                i <= digits@.len(),
                message@ =~= head + digits@.subrange(0, i as int),
            decreases digits@.len() - i,
        {
            message.push(digits[i]);
            i = i + 1;
        }
        proof {
            assert(digits@.subrange(0, digits@.len() as int) =~= digits@);
        }
        Err(ImportError::Protobuf(string_from_chars(&message)))
    }
}

/// The characters of a literal.
fn str_chars_vec(s: &str) -> (r: Vec<char>)
    ensures
        r@ == s@,
{
    crate::text::str_chars(s)
}

/// `r` with `prefix` put before its fields.
pub open spec fn prepend_fields(
    prefix: Seq<(u64, u8, u64, Seq<u8>)>,
    r: Result<Seq<(u64, u8, u64, Seq<u8>)>, Seq<char>>,
) -> Result<Seq<(u64, u8, u64, Seq<u8>)>, Seq<char>> {
    match r {
        Ok(rest) => Ok(prefix + rest),
        Err(m) => Err(m),
    }
}

/// Reads every field of a message, in order. Fails with the first field's error.
pub fn parse_fields(buf: &[u8]) -> (r: Result<Vec<ProtoField>, ImportError>)
    ensures
        match fields_from(buf@, 0) {
            Ok(ts) => r matches Ok(fs) && fs@.len() == ts.len()
                && forall|i: int| 0 <= i < ts.len() ==> field_is(#[trigger] fs@[i], ts[i]),
            Err(m) => r matches Err(ImportError::Protobuf(e)) && e@ == m,
        },
{
    let mut fields: Vec<ProtoField> = Vec::new();
    let mut off: usize = 0;
    let ghost mut done: Seq<(u64, u8, u64, Seq<u8>)> = Seq::empty();
    proof {
        assert(prepend_fields(done, fields_from(buf@, 0)) == fields_from(buf@, 0)) by {
            match fields_from(buf@, 0) {
                Ok(rest) => { assert(done + rest =~= rest); },
                Err(_) => {},
            }
        }
    }
    while off < buf.len()
        invariant
            off <= buf@.len(),
            fields@.len() == done.len(),
            forall|i: int| 0 <= i < done.len() ==> field_is(#[trigger] fields@[i], done[i]),
            fields_from(buf@, 0) == prepend_fields(done, fields_from(buf@, off as int)),
        decreases buf@.len() - off,
    {
        let ghost before = off as int;
        proof { lemma_field_at_advances(buf@, before); }
        match read_field(buf, &mut off) {
            Ok(f) => {
                proof {
                    let (t, next) = field_at(buf@, before)->Ok_0;
                    assert(fields_from(buf@, before) == prepend_fields(seq![t], fields_from(buf@, next)));
                    match fields_from(buf@, next) {
                        Ok(rest) => { assert(done + (seq![t] + rest) =~= (done.push(t)) + rest); },
                        Err(_) => {},
                    }
                    done = done.push(t);
                }
                fields.push(f);
            },
            Err(e) => {
                proof {
                    if let Ok((t, next)) = field_at(buf@, before) {
                        assert(false);
                    }
                }
                return Err(e);
            },
        }
    }
    proof {
        assert(fields_from(buf@, off as int) == Ok::<Seq<(u64, u8, u64, Seq<u8>)>, Seq<char>>(Seq::empty()));
        assert(done + Seq::<(u64, u8, u64, Seq<u8>)>::empty() =~= done);
    }
    Ok(fields)
}

/// Index of the first field numbered `no` among the first `k` fields, if any.
pub open spec fn first_field_from(fields: Seq<ProtoField>, no: u64, k: int) -> Option<int>
    decreases fields.len() - k,
{
    if k < 0 || k >= fields.len() {
        None
    } else if fields[k].field == no {
        Some(k)
    } else {
        first_field_from(fields, no, k + 1)
    }
}

/// Index of the first field numbered `no`, if any.
pub open spec fn first_field(fields: Seq<ProtoField>, no: u64) -> Option<int> {
    first_field_from(fields, no, 0)
}

/// The number a value holds, if it is numeric.
pub open spec fn numeric_value(v: ProtoValue) -> Option<u64> {
    match v {
        ProtoValue::Varint(x) => Some(x),
        ProtoValue::Fixed64(x) => Some(x),
        ProtoValue::Fixed32(x) => Some(x as u64),
        ProtoValue::Bytes(_) => None,
    }
}

pub proof fn lemma_first_field_from_bounds(fields: Seq<ProtoField>, no: u64, k: int)
    ensures
        first_field_from(fields, no, k) matches Some(i) ==> k <= i < fields.len() && fields[i].field == no,
    decreases fields.len() - k,
{
    if 0 <= k < fields.len() && fields[k].field != no {
        lemma_first_field_from_bounds(fields, no, k + 1);
    }
}

pub(crate) fn find_field(fields: &[ProtoField], field_no: u64) -> (r: Option<usize>)
    ensures
        match first_field(fields@, field_no) {
            Some(i) => r == Some(i as usize),
            None => r is None,
        },
{
    let mut i: usize = 0;
    while i < fields.len()
        invariant
            i <= fields@.len(),
            first_field(fields@, field_no) == first_field_from(fields@, field_no, i as int),
        decreases fields@.len() - i,
    {
        if fields[i].field == field_no {
            return Some(i);
        }
        i = i + 1;
    }
    None
}

/// The number held by the first field numbered `field_no`: none when there is no such field
/// or it holds bytes.
pub fn field_u64(fields: &[ProtoField], field_no: u64) -> (r: Option<u64>)
    ensures
        r == (match first_field(fields@, field_no) {
            Some(i) => numeric_value(fields@[i].value),
            None => None,
        }),
{
    proof { lemma_first_field_from_bounds(fields@, field_no, 0); }
    match find_field(fields, field_no) {
        Some(i) => match &fields[i].value {
            ProtoValue::Varint(v) => Some(*v),
            ProtoValue::Fixed64(v) => Some(*v),
            ProtoValue::Fixed32(v) => Some(*v as u64),
            ProtoValue::Bytes(_) => None,
        },
        None => None,
    }
}

/// The bytes held by the first field numbered `field_no`: none when there is no such field
/// or it holds a number.
pub fn field_bytes_value(fields: &[ProtoField], field_no: u64) -> (r: Option<&[u8]>)
    ensures
        match first_field(fields@, field_no) {
            Some(i) => match fields@[i].value {
                ProtoValue::Bytes(b) => r matches Some(x) && x@ == b@,
                _ => r is None,
            },
            None => r is None,
        },
{
    proof { lemma_first_field_from_bounds(fields@, field_no, 0); }
    match find_field(fields, field_no) {
        Some(i) => match &fields[i].value {
            ProtoValue::Bytes(value) => Some(value.as_slice()),
            _ => None,
        },
        None => None,
    }
}

/// A byte from an optional number: 0 when it is missing or above 255.
pub fn u8_from(value: Option<u64>) -> (r: u8)
    ensures
        r == (match value {
            Some(v) => if v <= 255 { v as u8 } else { 0u8 },
            None => 0u8,
        }),
{
    match value {
        Some(v) => if v <= 255 { v as u8 } else { 0 },
        None => 0,
    }
}

/// The message for a field that should hold bytes.
pub open spec fn not_length_delimited_message(field: u64) -> Seq<char> {
    "field "@ + decimal_digits(field as nat) + " is not length-delimited"@
}

impl ProtoField {
    /// The bytes of a length-delimited field; an error naming the field otherwise.
    pub fn bytes_value(&self) -> (r: Result<&[u8], ImportError>)
        ensures
            match self.value {
                ProtoValue::Bytes(b) => r matches Ok(x) && x@ == b@,
                _ => r matches Err(ImportError::Protobuf(m)) && m@ == not_length_delimited_message(self.field),
            },
    {
        match &self.value {
            ProtoValue::Bytes(value) => Ok(value.as_slice()),
            _ => {
                let mut message = str_chars_vec("field ");
                append_chars(&mut message, &u64_to_decimal(self.field));
                append_chars(&mut message, &str_chars_vec(" is not length-delimited"));
                Err(ImportError::Protobuf(string_from_chars(&message)))
            },
        }
    }
}

/// Appends characters.
fn append_chars(out: &mut Vec<char>, more: &Vec<char>)
    ensures
        final(out)@ == old(out)@ + more@,
{
    let ghost head = out@;
    let mut i: usize = 0;
    while i < more.len()
        invariant
            i <= more@.len(),
            out@ =~= head + more@.subrange(0, i as int),
        decreases more@.len() - i,
    {
        out.push(more[i]);
        i = i + 1;
    }
    proof { assert(more@.subrange(0, more@.len() as int) =~= more@); }
}

} // verus!
