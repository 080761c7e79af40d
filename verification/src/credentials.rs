//! The SDK login form and its signature, and the checks made on what the
//! game server answers during a credential import.
use vstd::prelude::*;
use crate::text::{str_chars, string_from_chars, u128_to_decimal, decimal_digits};
use crate::account::{AccountChannel, ClientVersion};
use crate::text::{ascii_lower, ascii_lower_seq, ascii_lower_spec, chars_eq_str};
use vstd::utf8::{encode_utf8, valid_utf8, decode_utf8};
use crate::protobuf::{ImportError, ProtoField, ProtoValue, fields_from, field_is, first_field, first_field_from,
    numeric_value, field_string, field_bytes, field_spec, parse_fields, field_u64, field_bytes_value,
    lemma_first_field_from_bounds};
use crate::account::{fail, dotted_version, dotted_version_spec, ascii_digits, all_ascii_digits};
use crate::sync_cli::string_views;

verus! {

/// `a` comes before `b` in `String`'s order. `String` compares the UTF-8
/// bytes, and UTF-8 keeps the order of code points, so this compares
/// characters by code point, a proper prefix first.
pub open spec fn chars_before(a: Seq<char>, b: Seq<char>) -> bool
    decreases a.len(),
{
    if a.len() == 0 {
        b.len() > 0
    } else if b.len() == 0 {
        false
    } else if a[0] != b[0] {
        (a[0] as u32) < (b[0] as u32)
    } else {
        chars_before(a.drop_first(), b.drop_first())
    }
}

proof fn lemma_chars_before_irreflexive(a: Seq<char>)
    ensures
        !chars_before(a, a),
    decreases a.len(),
{
    if a.len() > 0 {
        lemma_chars_before_irreflexive(a.drop_first());
    }
}

proof fn lemma_chars_before_asymmetric(a: Seq<char>, b: Seq<char>)
    ensures
        !(chars_before(a, b) && chars_before(b, a)),
    decreases a.len(),
{
    if a.len() > 0 && b.len() > 0 && a[0] == b[0] {
        lemma_chars_before_asymmetric(a.drop_first(), b.drop_first());
    }
}

proof fn lemma_chars_before_total(a: Seq<char>, b: Seq<char>)
    ensures
        a != b ==> chars_before(a, b) || chars_before(b, a),
    decreases a.len(),
{
    if a.len() > 0 && b.len() > 0 && a[0] == b[0] {
        lemma_chars_before_total(a.drop_first(), b.drop_first());
        if a.drop_first() == b.drop_first() {
            assert(a =~= seq![a[0]] + a.drop_first());
            assert(b =~= seq![b[0]] + b.drop_first());
        }
    } else if a.len() == 0 && b.len() == 0 {
        assert(a =~= b);
    } else if a.len() > 0 && b.len() > 0 {
        vstd::utf8::char_u32_cast(a[0], a[0] as u32);
        vstd::utf8::char_u32_cast(b[0], b[0] as u32);
    }
}

proof fn lemma_chars_before_transitive(a: Seq<char>, b: Seq<char>, c: Seq<char>)
    requires
        chars_before(a, b),
        chars_before(b, c),
    ensures
        chars_before(a, c),
    decreases a.len(),
{
    if a.len() > 0 && b.len() > 0 && c.len() > 0 && a[0] == b[0] && b[0] == c[0] {
        lemma_chars_before_transitive(a.drop_first(), b.drop_first(), c.drop_first());
    }
}

/// Whether `a` comes before `b` in `String`'s order.
pub fn chars_less(a: &Vec<char>, b: &Vec<char>) -> (r: bool)
    ensures
        r == chars_before(a@, b@),
{
    let mut i: usize = 0;
    proof {
        assert(a@.subrange(0, a@.len() as int) =~= a@);
        assert(b@.subrange(0, b@.len() as int) =~= b@);
    }
    while i < a.len() && i < b.len() && a[i] == b[i]
        invariant
            i <= a@.len(),
            i <= b@.len(),
            forall|k: int| 0 <= k < i ==> a@[k] == b@[k],
            chars_before(a@, b@) == chars_before(a@.subrange(i as int, a@.len() as int), b@.subrange(i as int, b@.len() as int)),
        decreases a@.len() - i,
    {
        proof {
            let sa = a@.subrange(i as int, a@.len() as int);
            let sb = b@.subrange(i as int, b@.len() as int);
            assert(sa.drop_first() =~= a@.subrange(i + 1, a@.len() as int));
            assert(sb.drop_first() =~= b@.subrange(i + 1, b@.len() as int));
        }
        i = i + 1;
    }
    if i == a.len() {
        i < b.len()
    } else if i == b.len() {
        false
    } else {
        (a[i] as u32) < (b[i] as u32)
    }
}

/// A form: fields in increasing order of name, each name once.
#[derive(Debug, Clone, PartialEq, Eq)]
pub struct Form {
    pub fields: Vec<(String, String)>,
}

/// The fields of a form as names and values.
pub open spec fn field_views(fields: Seq<(String, String)>) -> Seq<(Seq<char>, Seq<char>)> {
    fields.map_values(|f: (String, String)| (f.0@, f.1@))
}

impl View for Form {
    type V = Seq<(Seq<char>, Seq<char>)>;

    open spec fn view(&self) -> Seq<(Seq<char>, Seq<char>)> {
        field_views(self.fields@)
    }
}

/// The names increase from field to field.
pub open spec fn form_sorted(f: Seq<(Seq<char>, Seq<char>)>) -> bool {
    forall|i: int, j: int| 0 <= i < j < f.len() ==> chars_before(#[trigger] f[i].0, #[trigger] f[j].0)
}

/// The value of the field named `name`.
pub open spec fn form_get(f: Seq<(Seq<char>, Seq<char>)>, name: Seq<char>) -> Option<Seq<char>>
    decreases f.len(),
{
    if f.len() == 0 {
        None
    } else if f.last().0 == name {
        Some(f.last().1)
    } else {
        form_get(f.drop_last(), name)
    }
}

proof fn lemma_form_get_index(f: Seq<(Seq<char>, Seq<char>)>, name: Seq<char>)
    requires
        form_sorted(f),
    ensures
        form_get(f, name) matches Some(v) ==> exists|i: int| 0 <= i < f.len() && f[i] == (name, v),
        form_get(f, name) is None ==> forall|i: int| 0 <= i < f.len() ==> f[i].0 != name,
        forall|i: int| 0 <= i < f.len() && f[i].0 == name ==> form_get(f, name) == Some(f[i].1),
    decreases f.len(),
{
    if f.len() > 0 {
        let g = f.drop_last();
        assert(form_sorted(g)) by {
            assert forall|i: int, j: int| 0 <= i < j < g.len() implies chars_before(#[trigger] g[i].0, #[trigger] g[j].0) by {
                assert(g[i] == f[i] && g[j] == f[j]);
            }
        }
        lemma_form_get_index(g, name);
        if f.last().0 == name {
            assert(f[f.len() - 1] == (name, f.last().1));
            assert forall|i: int| 0 <= i < f.len() && f[i].0 == name implies form_get(f, name) == Some(f[i].1) by {
                if i < f.len() - 1 {
                    assert(chars_before(f[i].0, f[f.len() - 1].0));
                    lemma_chars_before_irreflexive(name);
                }
            }
        } else {
            if form_get(g, name) is Some {
                let v = form_get(g, name).unwrap();
                let i = choose|i: int| 0 <= i < g.len() && g[i] == (name, v);
                assert(f[i] == (name, v));
            }
            assert forall|i: int| 0 <= i < f.len() && f[i].0 == name implies form_get(f, name) == Some(f[i].1) by {
                assert(i < f.len() - 1);
                assert(g[i] == f[i]);
            }
        }
    }
}


/// Where field `name` goes: the first field that does not come before it.
fn form_position(fields: &Vec<(String, String)>, name: &Vec<char>) -> (p: usize)
    requires
        form_sorted(field_views(fields@)),
    ensures
        p <= fields@.len(),
        forall|i: int| 0 <= i < p ==> chars_before(#[trigger] fields@[i].0@, name@),
        p < fields@.len() ==> !chars_before(fields@[p as int].0@, name@),
{
    let mut p: usize = 0;
    while p < fields.len() && chars_less(&str_chars(fields[p].0.as_str()), name)
        invariant
            p <= fields@.len(),
            forall|i: int| 0 <= i < p ==> chars_before(#[trigger] fields@[i].0@, name@),
        decreases fields@.len() - p,
    {
        p = p + 1;
    }
    p
}

/// Sets field `name` to `value`, keeping the names in order.
pub fn form_insert(form: &mut Form, name: String, value: String)
    requires
        form_sorted(old(form)@),
    ensures
        form_sorted(final(form)@),
        forall|k: Seq<char>| #[trigger] form_get(final(form)@, k) == if k == name@ { Some(value@) } else { form_get(old(form)@, k) },
{
    let ghost before = form@;
    let name_chars = str_chars(name.as_str());
    let p = form_position(&form.fields, &name_chars);
    proof {
        assert forall|i: int| 0 <= i < p implies chars_before(#[trigger] before[i].0, name@) by {
            assert(before[i].0 == form.fields@[i].0@);
        }
        lemma_form_get_index(before, name@);
    }
    let same = p < form.fields.len() && {
        let existing = str_chars(form.fields[p].0.as_str());
        crate::text::chars_eq(&existing, &name_chars)
    };
    let ghost nv = (name@, value@);
    if same {
        form.fields.set(p, (name, value));
        proof {
            let after = form@;
            assert(after =~= before.update(p as int, nv));
            assert(form_sorted(after)) by {
                assert forall|i: int, j: int| 0 <= i < j < after.len() implies chars_before(#[trigger] after[i].0, #[trigger] after[j].0) by {
                    assert(before[p as int].0 == name@);
                    if i != p && j != p { assert(after[i] == before[i] && after[j] == before[j]); }
                    else if i == p { assert(after[j] == before[j]); }
                    else { assert(after[i] == before[i]); }
                }
            }
            lemma_form_get_index(after, name@);
            assert(after[p as int] == nv);
            assert forall|k: Seq<char>| #[trigger] form_get(after, k) == if k == name@ { Some(value@) } else { form_get(before, k) } by {
                lemma_form_get_index(after, k);
                lemma_form_get_index(before, k);
                if k != name@ {
                    if form_get(before, k) is Some {
                        let i = choose|i: int| 0 <= i < before.len() && before[i] == (k, form_get(before, k).unwrap());
                        assert(after[i] == before[i]);
                    }
                    if form_get(after, k) is Some {
                        let i = choose|i: int| 0 <= i < after.len() && after[i] == (k, form_get(after, k).unwrap());
                        assert(after[i] == before[i]);
                    }
                }
            }
        }
    } else {
        form.fields.insert(p, (name, value));
        proof {
            let after = form@;
            assert(after =~= before.insert(p as int, nv));
            if p < before.len() {
                lemma_chars_before_total(before[p as int].0, name@);
                assert(before[p as int].0 != name@);
                assert(chars_before(name@, before[p as int].0));
            }
            assert(form_sorted(after)) by {
                assert forall|i: int, j: int| 0 <= i < j < after.len() implies chars_before(#[trigger] after[i].0, #[trigger] after[j].0) by {
                    if j < p {
                        assert(after[i] == before[i] && after[j] == before[j]);
                    } else if j == p {
                        assert(after[i] == before[i]);
                    } else if i < p {
                        assert(after[i] == before[i] && after[j] == before[j - 1]);
                        if j - 1 > p {
                            assert(chars_before(name@, before[p as int].0));
                            assert(chars_before(before[p as int].0, before[j - 1].0));
                            lemma_chars_before_transitive(name@, before[p as int].0, before[j - 1].0);
                        }
                        lemma_chars_before_transitive(before[i].0, name@, before[j - 1].0);
                    } else if i == p {
                        assert(after[j] == before[j - 1]);
                        if j - 1 > p {
                            assert(chars_before(before[p as int].0, before[j - 1].0));
                            lemma_chars_before_transitive(name@, before[p as int].0, before[j - 1].0);
                        }
                    } else {
                        assert(after[i] == before[i - 1] && after[j] == before[j - 1]);
                    }
                }
            }
            lemma_form_get_index(after, name@);
            assert(after[p as int] == nv);
            assert forall|k: Seq<char>| #[trigger] form_get(after, k) == if k == name@ { Some(value@) } else { form_get(before, k) } by {
                lemma_form_get_index(after, k);
                lemma_form_get_index(before, k);
                if k != name@ {
                    if form_get(before, k) is Some {
                        let i = choose|i: int| 0 <= i < before.len() && before[i] == (k, form_get(before, k).unwrap());
                        if i < p { assert(after[i] == before[i]); } else { assert(after[i + 1] == before[i]); }
                    }
                    if form_get(after, k) is Some {
                        let i = choose|i: int| 0 <= i < after.len() && after[i] == (k, form_get(after, k).unwrap());
                        if i < p { assert(after[i] == before[i]); } else if i > p { assert(after[i] == before[i - 1]); }
                    }
                }
            }
        }
    }
}



/// The device id of a platform, as `AccountChannel::bd_id` gives it.
pub open spec fn bd_id_spec(channel: AccountChannel) -> Seq<char> {
    match channel {
        AccountChannel::Android => "ec85a677-2f0e-4121-951f-da641cef481a-2ec55091-9b91-4687-a50b-6cc"@,
        AccountChannel::Ios => "801dec5f-93c9-4e0d-9aea-03db2d57da4b-72e7c926-9d82-498b-99c9-a54"@,
    }
}

/// The value of each field of the SDK login form.
pub open spec fn sdk_param(channel: AccountChannel, version: ClientVersion, time: u128, k: Seq<char>) -> Option<Seq<char>> {
    if k == "timestamp"@ {
        Some(decimal_digits(time as nat))
    } else if k == "ad_ext"@ {
        Some("{\"server_type\":\"0\"}"@)
    } else if k == "ad_info"@ {
        Some("{\"server_type\":\"0\"}"@)
    } else if k == "domain_switch_count"@ {
        Some("0"@)
    } else if k == "current_env"@ {
        Some("0"@)
    } else if k == "version_code"@ {
        Some(version.code@)
    } else if k == "app_ver"@ {
        Some(version.client@)
    } else if k == "apk_sign"@ {
        Some("4502a02a00395dec05a4134ad593224d"@)
    } else if k == "bd_id"@ {
        Some(bd_id_spec(channel))
    } else if k == "udid"@ {
        Some("XX6AB116C041772C0A98614CC0AB7F5D4C6B9"@)
    } else if k == "old_buvid"@ {
        Some("XX6AB116C041772C0A98614CC0AB7F5D4C6B9"@)
    } else if k == "cur_buvid"@ {
        Some("XX6AB116C041772C0A98614CC0AB7F5D4C6B9"@)
    } else if k == "original_domain"@ {
        Some("https://line1-sdk-center-login-sh.biligame.net"@)
    } else if k == "domain"@ {
        Some("line1-sdk-center-login-sh.biligame.net"@)
    } else if k == "version"@ {
        Some("3"@)
    } else if k == "sdk_ver"@ {
        Some("6.19.5"@)
    } else if k == "sdk_log_type"@ {
        Some("1"@)
    } else if k == "sdk_type"@ {
        Some("1"@)
    } else if k == "platform_type"@ {
        Some("3"@)
    } else if k == "platform"@ {
        Some("3"@)
    } else if k == "channel_id"@ {
        Some("1"@)
    } else if k == "server_id"@ {
        Some("557"@)
    } else if k == "merchant_id"@ {
        Some("1"@)
    } else if k == "game_id"@ {
        Some("330"@)
    } else if k == "app_id"@ {
        Some("330"@)
    } else {
        None
    }
}

/// The form every SDK request starts from: the app, SDK and device fields,
/// the platform's device id, the client version and the time in milliseconds.
pub fn sdk_params(channel: AccountChannel, version: &ClientVersion, time: u128) -> (r: Form)
    ensures
        form_sorted(r@),
        forall|k: Seq<char>| #[trigger] form_get(r@, k) == sdk_param(channel, *version, time, k),
{
    let mut form = Form { fields: Vec::new() };
    proof { assert(form@ =~= Seq::<(Seq<char>, Seq<char>)>::empty()); }
    form_insert(&mut form, "app_id".to_owned(), "330".to_owned());
    form_insert(&mut form, "game_id".to_owned(), "330".to_owned());
    form_insert(&mut form, "merchant_id".to_owned(), "1".to_owned());
    form_insert(&mut form, "server_id".to_owned(), "557".to_owned());
    form_insert(&mut form, "channel_id".to_owned(), "1".to_owned());
    form_insert(&mut form, "platform".to_owned(), "3".to_owned());
    form_insert(&mut form, "platform_type".to_owned(), "3".to_owned());
    form_insert(&mut form, "sdk_type".to_owned(), "1".to_owned());
    form_insert(&mut form, "sdk_log_type".to_owned(), "1".to_owned());
    form_insert(&mut form, "sdk_ver".to_owned(), "6.19.5".to_owned());
    form_insert(&mut form, "version".to_owned(), "3".to_owned());
    form_insert(&mut form, "domain".to_owned(), "line1-sdk-center-login-sh.biligame.net".to_owned());
    form_insert(&mut form, "original_domain".to_owned(), "https://line1-sdk-center-login-sh.biligame.net".to_owned());
    form_insert(&mut form, "cur_buvid".to_owned(), "XX6AB116C041772C0A98614CC0AB7F5D4C6B9".to_owned());
    form_insert(&mut form, "old_buvid".to_owned(), "XX6AB116C041772C0A98614CC0AB7F5D4C6B9".to_owned());
    form_insert(&mut form, "udid".to_owned(), "XX6AB116C041772C0A98614CC0AB7F5D4C6B9".to_owned());
    form_insert(&mut form, "bd_id".to_owned(), channel.bd_id().to_owned());
    form_insert(&mut form, "apk_sign".to_owned(), "4502a02a00395dec05a4134ad593224d".to_owned());
    form_insert(&mut form, "app_ver".to_owned(), version.client.clone());
    form_insert(&mut form, "version_code".to_owned(), version.code.clone());
    form_insert(&mut form, "current_env".to_owned(), "0".to_owned());
    form_insert(&mut form, "domain_switch_count".to_owned(), "0".to_owned());
    form_insert(&mut form, "ad_info".to_owned(), "{\"server_type\":\"0\"}".to_owned());
    form_insert(&mut form, "ad_ext".to_owned(), "{\"server_type\":\"0\"}".to_owned());
    form_insert(&mut form, "timestamp".to_owned(), string_from_chars(&u128_to_decimal(time)));
    proof {
        reveal_strlit("timestamp");
    }
    form
}


/// The MD5 digest of some bytes.
pub uninterp spec fn md5_digest(data: Seq<u8>) -> Seq<u8>;

/// `md5::Md5::digest`: the 16-byte MD5 digest of the data.
#[verifier::external_body]
fn md5(data: &[u8]) -> (r: [u8; 16])
    ensures
        r@ == md5_digest(data@),
{
    let digest = <md5::Md5 as md5::Digest>::digest(data);
    let mut out = [0u8; 16];
    out.copy_from_slice(&digest);
    out
}

/// The lower-case hexadecimal digit of a value below 16.
pub open spec fn hex_digit(d: int) -> char {
    if d < 10 { (48 + d) as char } else { (87 + d) as char }
}

/// Bytes in lower-case hexadecimal, two digits each.
pub open spec fn hex_lower(bytes: Seq<u8>) -> Seq<char>
    decreases bytes.len(),
{
    if bytes.len() == 0 {
        Seq::empty()
    } else {
        hex_lower(bytes.drop_last()) + seq![hex_digit((bytes.last() / 16) as int), hex_digit((bytes.last() % 16) as int)]
    }
}

fn hex_char(d: u8) -> (c: char)
    requires
        d < 16,
    ensures
        c == hex_digit(d as int),
{
    if d < 10 {
        crate::text::char_from_ascii(48 + d as u32)
    } else {
        crate::text::char_from_ascii(87 + d as u32)
    }
}

/// Bytes in lower-case hexadecimal.
pub fn to_hex(bytes: &[u8]) -> (r: String)
    ensures
        r@ == hex_lower(bytes@),
{
    let mut out: Vec<char> = Vec::new();
    let mut i: usize = 0;
    while i < bytes.len()
        invariant
            i <= bytes@.len(),
            out@ == hex_lower(bytes@.subrange(0, i as int)),
        decreases bytes@.len() - i,
    {
        let b = bytes[i];
        out.push(hex_char(b / 16));
        out.push(hex_char(b % 16));
        proof {
            assert(bytes@.subrange(0, i + 1).drop_last() =~= bytes@.subrange(0, i as int));
            assert(out@ =~= hex_lower(bytes@.subrange(0, i as int)) + seq![hex_digit((b / 16) as int), hex_digit((b % 16) as int)]);
        }
        i = i + 1;
    }
    proof { assert(bytes@.subrange(0, bytes@.len() as int) =~= bytes@); }
    string_from_chars(&out)
}

pub(crate) fn push_bytes(out: &mut Vec<u8>, more: &[u8])
    ensures
        final(out)@ == old(out)@ + more@,
{
    let ghost start = out@;
    let mut i: usize = 0;
    while i < more.len()
        invariant
            i <= more@.len(),
            out@ == start + more@.subrange(0, i as int),
        decreases more@.len() - i,
    {
        out.push(more[i]);
        proof { assert(more@.subrange(0, i + 1) =~= more@.subrange(0, i as int).push(more@[i as int])); }
        i = i + 1;
    }
    proof { assert(more@.subrange(0, more@.len() as int) =~= more@); }
}

/// Fields left out of the signature, by name in any ASCII case.
pub open spec fn sign_excluded(name: Seq<char>) -> bool {
    let l = ascii_lower_seq(name);
    l == "item_name"@ || l == "item_desc"@ || l == "feign_sign"@ || l == "token"@ || l == "sign"@
}

/// The signed bytes of the fields: the values of those not left out, in order.
pub open spec fn sign_bytes(fields: Seq<(Seq<char>, Seq<char>)>) -> Seq<u8>
    decreases fields.len(),
{
    if fields.len() == 0 {
        Seq::empty()
    } else {
        sign_bytes(fields.drop_last()) + if sign_excluded(fields.last().0) { Seq::empty() } else { encode_utf8(fields.last().1) }
    }
}

/// The key appended to what the SDK signs.
pub open spec fn sdk_key() -> Seq<char> {
    "0e814339fb45488db2f0a3462fe17690"@
}

fn lower_chars(s: &Vec<char>) -> (r: Vec<char>)
    ensures
        r@ == ascii_lower_seq(s@),
{
    let mut out: Vec<char> = Vec::new();
    let mut i: usize = 0;
    while i < s.len()
        invariant
            i <= s@.len(),
            out@ == s@.subrange(0, i as int).map_values(|c: char| ascii_lower_spec(c)),
        decreases s@.len() - i,
    {
        out.push(ascii_lower(s[i]));
        proof {
            assert(s@.subrange(0, i + 1).map_values(|c: char| ascii_lower_spec(c))
                =~= s@.subrange(0, i as int).map_values(|c: char| ascii_lower_spec(c)).push(ascii_lower_spec(s@[i as int])));
        }
        i = i + 1;
    }
    proof { assert(s@.subrange(0, s@.len() as int) =~= s@); }
    out
}

fn excluded_from_sign(name: &str) -> (r: bool)
    ensures
        r == sign_excluded(name@),
{
    let l = lower_chars(&str_chars(name));
    chars_eq_str(&l, "item_name") || chars_eq_str(&l, "item_desc") || chars_eq_str(&l, "feign_sign")
        || chars_eq_str(&l, "token") || chars_eq_str(&l, "sign")
}

/// The SDK signature of a form: the MD5 digest, in lower-case hexadecimal, of
/// the values in order of name (the form's names must increase), leaving out the item, feign-sign, token and
/// sign fields, followed by the SDK key.
pub fn sdk_sign(form: &Form) -> (r: String)
    requires
        form_sorted(form@),
    ensures
        r@ == hex_lower(md5_digest(sign_bytes(form@) + encode_utf8(sdk_key()))),
{
    let mut bytes: Vec<u8> = Vec::new();
    let mut i: usize = 0;
    while i < form.fields.len()
        invariant
            i <= form@.len(),
            form@.len() == form.fields@.len(),
            bytes@ == sign_bytes(form@.subrange(0, i as int)),
        decreases form@.len() - i,
    {
        let ghost part = form@.subrange(0, i + 1);
        proof {
            assert(part.drop_last() =~= form@.subrange(0, i as int));
            assert(part.last() == (form.fields@[i as int].0@, form.fields@[i as int].1@));
        }
        if !excluded_from_sign(form.fields[i].0.as_str()) {
            push_bytes(&mut bytes, form.fields[i].1.as_str().as_bytes());
        }
        proof {
            assert(bytes@ =~= sign_bytes(part));
        }
        i = i + 1;
    }
    proof { assert(form@.subrange(0, form@.len() as int) =~= form@); reveal_strlit("0e814339fb45488db2f0a3462fe17690"); }
    push_bytes(&mut bytes, "0e814339fb45488db2f0a3462fe17690".as_bytes());
    let digest = md5(bytes.as_slice());
    to_hex(&digest)
}


/// A field as read by the protobuf reader: number, wire type, number held, bytes held.
pub type FieldTuple = (u64, u8, u64, Seq<u8>);

/// Where the first field numbered `no` is, from `k` on.
pub open spec fn first_tuple(ts: Seq<FieldTuple>, no: u64, k: int) -> Option<int>
    decreases ts.len() - k,
{
    if k < 0 || k >= ts.len() {
        None
    } else if ts[k].0 == no {
        Some(k)
    } else {
        first_tuple(ts, no, k + 1)
    }
}

/// The number held by the first field numbered `no`, if it holds one.
pub open spec fn tuple_u64(ts: Seq<FieldTuple>, no: u64) -> Option<u64> {
    match first_tuple(ts, no, 0) {
        Some(i) => if ts[i].1 == 2 { None } else { Some(ts[i].2) },
        None => None,
    }
}

/// The bytes held by the first field numbered `no`, if it holds bytes.
pub open spec fn tuple_bytes(ts: Seq<FieldTuple>, no: u64) -> Option<Seq<u8>> {
    match first_tuple(ts, no, 0) {
        Some(i) => if ts[i].1 == 2 { Some(ts[i].3) } else { None },
        None => None,
    }
}

/// The text held by the first field numbered `no`, if it holds valid UTF-8.
pub open spec fn tuple_text(ts: Seq<FieldTuple>, no: u64) -> Option<Seq<char>> {
    match tuple_bytes(ts, no) {
        Some(b) => if valid_utf8(b) { Some(decode_utf8(b)) } else { None },
        None => None,
    }
}

/// The fields `fs` are those read as `ts`.
pub open spec fn fields_read_as(fs: Seq<ProtoField>, ts: Seq<FieldTuple>) -> bool {
    fs.len() == ts.len() && forall|i: int| 0 <= i < ts.len() ==> field_is(#[trigger] fs[i], ts[i])
}

proof fn lemma_first_matches(fs: Seq<ProtoField>, ts: Seq<FieldTuple>, no: u64, k: int)
    requires
        fields_read_as(fs, ts),
    ensures
        first_field_from(fs, no, k) == first_tuple(ts, no, k),
    decreases ts.len() - k,
{
    if 0 <= k < ts.len() {
        assert(field_is(fs[k], ts[k]));
        lemma_first_matches(fs, ts, no, k + 1);
    }
}

pub proof fn lemma_read_values(fs: Seq<ProtoField>, ts: Seq<FieldTuple>, no: u64)
    requires
        fields_read_as(fs, ts),
    ensures
        first_field(fs, no) == first_tuple(ts, no, 0),
        first_field(fs, no) matches Some(i) ==> numeric_value(fs[i].value) == tuple_u64(ts, no)
            && (fs[i].value matches ProtoValue::Bytes(b) ==> tuple_bytes(ts, no) == Some(b@))
            && (!(fs[i].value is Bytes) ==> tuple_bytes(ts, no) is None),
{
    lemma_first_matches(fs, ts, no, 0);
    lemma_first_field_from_bounds(fs, no, 0);
    if let Some(i) = first_field(fs, no) {
        assert(field_is(fs[i], ts[i]));
    }
}

/// A failure of the import: the protobuf reader's, or the account import's.
pub enum Failure {
    Protobuf(Seq<char>),
    Account(Seq<char>),
}

/// `r` failed as `f` says.
pub open spec fn failed_as<T>(r: Result<T, ImportError>, f: Failure) -> bool {
    match f {
        Failure::Protobuf(m) => r matches Err(ImportError::Protobuf(e)) && e@ == m,
        Failure::Account(m) => r matches Err(ImportError::Account(e)) && e@ == m,
    }
}

/// The text of the first field numbered `number`, if it holds valid UTF-8.
pub fn text_field(fields: &[ProtoField], number: u64) -> (r: Option<String>)
    ensures
        crate::sync_cli::opt_view(r) == (match first_field(fields@, number) {
            Some(i) => match fields@[i].value {
                ProtoValue::Bytes(b) => if valid_utf8(b@) { Some(decode_utf8(b@)) } else { None },
                _ => None,
            },
            None => None,
        }),
{
    match field_bytes_value(fields, number) {
        Some(b) => crate::manifest::utf8_text(b),
        None => None,
    }
}

/// The player id a game login answers: field 1 of the answer, between 1 and `i64::MAX`.
pub open spec fn login_player_spec(login: Seq<u8>) -> Result<u64, Failure> {
    match fields_from(login, 0) {
        Err(m) => Err(Failure::Protobuf(m)),
        Ok(ts) => match tuple_u64(ts, 1) {
            Some(n) => if 0 < n <= i64::MAX { Ok(n) } else { Err(Failure::Account("游戏登录没有返回有效玩家 ID"@)) },
            None => Err(Failure::Account("游戏登录没有返回有效玩家 ID"@)),
        },
    }
}

/// Reads the player id out of the game login's answer.
pub fn login_player_id(login: &[u8]) -> (r: Result<u64, ImportError>)
    ensures
        match login_player_spec(login@) {
            Ok(n) => r == Ok::<u64, ImportError>(n),
            Err(f) => failed_as(r, f),
        },
{
    let fields = match parse_fields(login) { Ok(f) => f, Err(e) => return Err(e) };
    proof {
        let ts = fields_from(login@, 0)->Ok_0;
        lemma_read_values(fields@, ts, 1);
        reveal_strlit("游戏登录没有返回有效玩家 ID");
    }
    match field_u64(fields.as_slice(), 1) {
        Some(n) => if n > 0 && n <= 0x7fff_ffff_ffff_ffff {
            Ok(n)
        } else {
            Err(fail("游戏登录没有返回有效玩家 ID"))
        },
        None => Err(fail("游戏登录没有返回有效玩家 ID")),
    }
}

/// Whether a suite answer belongs to player `uid`: the user record (field 1)
/// holds a registration (field 1) and a data record (field 2), each naming the
/// player in its field 1.
pub open spec fn suite_check_spec(suite: Seq<u8>, uid: u64) -> Option<Failure> {
    match fields_from(suite, 0) {
        Err(m) => Some(Failure::Protobuf(m)),
        Ok(root) => match tuple_bytes(root, 1) {
            None => Some(Failure::Account("国服没有返回用户资料"@)),
            Some(ub) => match fields_from(ub, 0) {
                Err(m) => Some(Failure::Protobuf(m)),
                Ok(user) => match tuple_bytes(user, 1) {
                    None => Some(Failure::Account("国服没有返回用户身份"@)),
                    Some(rb) => match fields_from(rb, 0) {
                        Err(m) => Some(Failure::Protobuf(m)),
                        Ok(reg) => match tuple_bytes(user, 2) {
                            None => Some(Failure::Account("国服没有返回用户等级"@)),
                            Some(db) => match fields_from(db, 0) {
                                Err(m) => Some(Failure::Protobuf(m)),
                                Ok(data) => if tuple_u64(reg, 1) != Some(uid) || tuple_u64(data, 1) != Some(uid) {
                                    Some(Failure::Account("登录账号与返回资料不一致，已停止导入"@))
                                } else {
                                    None
                                },
                            },
                        },
                    },
                },
            },
        },
    }
}

/// The player's name and rank a suite names: the name in field 3 of the
/// registration record, the rank in field 2 of the data record, empty and 0
/// where missing.
#[derive(Debug, Clone, PartialEq, Eq)]
pub struct SuiteIdentity {
    pub name: String,
    pub rank: u64,
}

/// The name and rank in a suite that passes `suite_check_spec`.
pub open spec fn suite_identity_spec(suite: Seq<u8>) -> (Seq<char>, u64) {
    let root = fields_from(suite, 0)->Ok_0;
    let user = fields_from(tuple_bytes(root, 1)->Some_0, 0)->Ok_0;
    let reg = fields_from(tuple_bytes(user, 1)->Some_0, 0)->Ok_0;
    let data = fields_from(tuple_bytes(user, 2)->Some_0, 0)->Ok_0;
    (
        match tuple_text(reg, 3) { Some(t) => t, None => Seq::empty() },
        match tuple_u64(data, 2) { Some(n) => n, None => 0 },
    )
}

/// Checks that the suite answered belongs to the player that logged in, and
/// reads the player's name and rank out of it.
pub fn check_suite_owner(suite: &[u8], uid: u64) -> (r: Result<SuiteIdentity, ImportError>)
    ensures
        match suite_check_spec(suite@, uid) {
            None => r matches Ok(id) && id.name@ == suite_identity_spec(suite@).0
                && id.rank == suite_identity_spec(suite@).1,
            Some(f) => failed_as(r, f),
        },
{
    proof {
        reveal_strlit("国服没有返回用户资料");
        reveal_strlit("国服没有返回用户身份");
        reveal_strlit("国服没有返回用户等级");
        reveal_strlit("登录账号与返回资料不一致，已停止导入");
    }
    let root = match parse_fields(suite) { Ok(f) => f, Err(e) => return Err(e) };
    proof { lemma_read_values(root@, fields_from(suite@, 0)->Ok_0, 1); }
    let user_bytes = match field_bytes_value(root.as_slice(), 1) {
        Some(b) => b,
        None => return Err(fail("国服没有返回用户资料")),
    };
    let user = match parse_fields(user_bytes) { Ok(f) => f, Err(e) => return Err(e) };
    proof {
        lemma_read_values(user@, fields_from(user_bytes@, 0)->Ok_0, 1);
        lemma_read_values(user@, fields_from(user_bytes@, 0)->Ok_0, 2);
    }
    let registration_bytes = match field_bytes_value(user.as_slice(), 1) {
        Some(b) => b,
        None => return Err(fail("国服没有返回用户身份")),
    };
    let registration = match parse_fields(registration_bytes) { Ok(f) => f, Err(e) => return Err(e) };
    let data_bytes = match field_bytes_value(user.as_slice(), 2) {
        Some(b) => b,
        None => return Err(fail("国服没有返回用户等级")),
    };
    let data = match parse_fields(data_bytes) { Ok(f) => f, Err(e) => return Err(e) };
    proof {
        lemma_read_values(registration@, fields_from(registration_bytes@, 0)->Ok_0, 1);
        lemma_read_values(data@, fields_from(data_bytes@, 0)->Ok_0, 1);
        lemma_read_values(registration@, fields_from(registration_bytes@, 0)->Ok_0, 3);
        lemma_read_values(data@, fields_from(data_bytes@, 0)->Ok_0, 2);
    }
    if field_u64(registration.as_slice(), 1) != Some(uid) || field_u64(data.as_slice(), 1) != Some(uid) {
        return Err(fail("登录账号与返回资料不一致，已停止导入"));
    }
    let name = match text_field(registration.as_slice(), 3) {
        Some(t) => t,
        None => String::new(),
    };
    let rank = match field_u64(data.as_slice(), 2) {
        Some(n) => n,
        None => 0,
    };
    Ok(SuiteIdentity { name, rank })
}

/// A suite answer is only accepted when its registration and data records
/// both name the player who logged in.
pub proof fn lemma_accepted_suite_names_the_player(suite: Seq<u8>, uid: u64)
    requires
        suite_check_spec(suite, uid) is None,
    ensures
        exists|root: Seq<FieldTuple>, user: Seq<FieldTuple>, reg: Seq<FieldTuple>, data: Seq<FieldTuple>| {
            &&& fields_from(suite, 0) == Ok::<Seq<FieldTuple>, Seq<char>>(root)
            &&& tuple_bytes(root, 1) is Some
            &&& fields_from(tuple_bytes(root, 1).unwrap(), 0) == Ok::<Seq<FieldTuple>, Seq<char>>(user)
            &&& tuple_bytes(user, 1) is Some
            &&& fields_from(tuple_bytes(user, 1).unwrap(), 0) == Ok::<Seq<FieldTuple>, Seq<char>>(reg)
            &&& tuple_bytes(user, 2) is Some
            &&& fields_from(tuple_bytes(user, 2).unwrap(), 0) == Ok::<Seq<FieldTuple>, Seq<char>>(data)
            &&& tuple_u64(reg, 1) == Some(uid)
            &&& tuple_u64(data, 1) == Some(uid)
        },
{
    let root = fields_from(suite, 0)->Ok_0;
    let user = fields_from(tuple_bytes(root, 1).unwrap(), 0)->Ok_0;
    let reg = fields_from(tuple_bytes(user, 1).unwrap(), 0)->Ok_0;
    let data = fields_from(tuple_bytes(user, 2).unwrap(), 0)->Ok_0;
    assert(fields_from(suite, 0) == Ok::<Seq<FieldTuple>, Seq<char>>(root));
}


/// The data and master-data versions the game server reports.
#[derive(Debug, Clone, PartialEq, Eq)]
pub struct ApplicationVersion {
    pub data: String,
    pub master: String,
}

/// What the application endpoint's answer says: its field 1 must be the
/// client version in use, field 2 a dotted data version, field 10 a master
/// data version of sixteen digits.
pub open spec fn application_spec(body: Seq<u8>, client: Seq<char>) -> Result<(Seq<char>, Seq<char>), Failure> {
    match fields_from(body, 0) {
        Err(m) => Err(Failure::Protobuf(m)),
        Ok(ts) => if tuple_text(ts, 1) != Some(client) {
            Err(Failure::Account("游戏客户端版本已更新"@))
        } else if !(tuple_text(ts, 2) matches Some(d) && dotted_version_spec(d)) {
            Err(Failure::Account("国服数据版本格式异常"@))
        } else if !(tuple_text(ts, 10) matches Some(m) && m.len() == 16 && ascii_digits(m)) {
            Err(Failure::Account("国服主数据版本格式异常"@))
        } else {
            Ok((tuple_text(ts, 2).unwrap(), tuple_text(ts, 10).unwrap()))
        },
    }
}

/// Reads the data and master-data versions out of the application endpoint's answer.
pub fn application_versions(body: &[u8], version: &ClientVersion) -> (r: Result<ApplicationVersion, ImportError>)
    ensures
        match application_spec(body@, version.client@) {
            Ok((d, m)) => r matches Ok(a) && a.data@ == d && a.master@ == m,
            Err(f) => failed_as(r, f),
        },
{
    proof {
        reveal_strlit("游戏客户端版本已更新");
        reveal_strlit("国服数据版本格式异常");
        reveal_strlit("国服主数据版本格式异常");
    }
    let fields = match parse_fields(body) { Ok(f) => f, Err(e) => return Err(e) };
    proof {
        let ts = fields_from(body@, 0)->Ok_0;
        lemma_read_values(fields@, ts, 1);
        lemma_read_values(fields@, ts, 2);
        lemma_read_values(fields@, ts, 10);
    }
    let client = text_field(fields.as_slice(), 1);
    let same = match &client {
        Some(c) => crate::text::chars_eq(&str_chars(c.as_str()), &str_chars(version.client.as_str())),
        None => false,
    };
    if !same {
        return Err(fail("游戏客户端版本已更新"));
    }
    let data = match text_field(fields.as_slice(), 2) {
        Some(d) => if dotted_version(d.as_str()) { d } else { return Err(fail("国服数据版本格式异常")) },
        None => return Err(fail("国服数据版本格式异常")),
    };
    let master = match text_field(fields.as_slice(), 10) {
        Some(m) => {
            let chars = str_chars(m.as_str());
            if chars.len() == 16 && all_ascii_digits(&chars) { m } else { return Err(fail("国服主数据版本格式异常")) }
        },
        None => return Err(fail("国服主数据版本格式异常")),
    };
    Ok(ApplicationVersion { data, master })
}

/// The device id sent to the game server.
pub open spec fn device_id() -> Seq<char> {
    "116c041772c0a98614cc0ab7f5d4c6b9"@
}

/// The game login request: the SDK uid and access key, the platform, device
/// model and system, the client version, the device record and the package.
pub open spec fn login_body_spec(uid: Seq<char>, access_key: Seq<char>, client: Seq<char>) -> Seq<u8> {
    let udid = field_spec(1, encode_utf8("12345"@)) + field_spec(2, encode_utf8(device_id()));
    field_spec(1, encode_utf8(uid))
        + field_spec(2, encode_utf8(access_key))
        + field_spec(3, encode_utf8("Android"@))
        + field_spec(4, encode_utf8("HXY MP08"@))
        + field_spec(5, encode_utf8("Android OS 12 / API-31 (SP1A.210812.016/2207251529)"@))
        + field_spec(6, encode_utf8(client))
        + field_spec(7, udid)
        + field_spec(8, encode_utf8("com.bilibili.star.bili"@))
}

/// Builds the game login request.
pub fn login_body(uid: &str, access_key: &str, version: &ClientVersion) -> (r: Vec<u8>)
    ensures
        r@ == login_body_spec(uid@, access_key@, version.client@),
{
    let mut udid: Vec<u8> = Vec::new();
    field_string(&mut udid, 1, "12345");
    field_string(&mut udid, 2, "116c041772c0a98614cc0ab7f5d4c6b9");
    let mut body: Vec<u8> = Vec::new();
    field_string(&mut body, 1, uid);
    field_string(&mut body, 2, access_key);
    field_string(&mut body, 3, "Android");
    field_string(&mut body, 4, "HXY MP08");
    field_string(&mut body, 5, "Android OS 12 / API-31 (SP1A.210812.016/2207251529)");
    field_string(&mut body, 6, version.client.as_str());
    field_bytes(&mut body, 7, udid.as_slice());
    field_string(&mut body, 8, "com.bilibili.star.bili");
    proof {
        assert(udid@ =~= field_spec(1, encode_utf8("12345"@)) + field_spec(2, encode_utf8(device_id())));
        assert(body@ =~= login_body_spec(uid@, access_key@, version.client@));
    }
    body
}

/// The key the request id of the suite request is derived with.
pub open spec fn request_key() -> Seq<char> {
    "44859ad705d454676f9184af633e6e4f"@
}

/// The request id of the suite request: the MD5 digest, in lower-case
/// hexadecimal, of the request key followed by the nonce the login answered.
pub fn suite_request_id(nonce: &str) -> (r: String)
    ensures
        r@ == hex_lower(md5_digest(encode_utf8(request_key()) + encode_utf8(nonce@))),
{
    let mut bytes: Vec<u8> = Vec::new();
    proof { reveal_strlit("44859ad705d454676f9184af633e6e4f"); }
    push_bytes(&mut bytes, "44859ad705d454676f9184af633e6e4f".as_bytes());
    push_bytes(&mut bytes, nonce.as_bytes());
    let digest = md5(bytes.as_slice());
    to_hex(&digest)
}

/// The fixed texts of the SDK and game requests: the signing key, the
/// request-id key, the device id, and each platform's device id.
pub proof fn lemma_request_constants()
    ensures
        sdk_key() == "0e814339fb45488db2f0a3462fe17690"@,
        request_key() == "44859ad705d454676f9184af633e6e4f"@,
        device_id() == "116c041772c0a98614cc0ab7f5d4c6b9"@,
        bd_id_spec(AccountChannel::Android) == "ec85a677-2f0e-4121-951f-da641cef481a-2ec55091-9b91-4687-a50b-6cc"@,
        bd_id_spec(AccountChannel::Ios) == "801dec5f-93c9-4e0d-9aea-03db2d57da4b-72e7c926-9d82-498b-99c9-a54"@,
{
}

/// The fields the signature leaves out are item_name, item_desc, feign_sign,
/// token and sign, in any ASCII case, and no others.
pub proof fn lemma_sign_excluded_names(name: Seq<char>)
    ensures
        sign_excluded(name) <==> (ascii_lower_seq(name) == "item_name"@ || ascii_lower_seq(name) == "item_desc"@
            || ascii_lower_seq(name) == "feign_sign"@ || ascii_lower_seq(name) == "token"@
            || ascii_lower_seq(name) == "sign"@),
{
}

} // verus!
