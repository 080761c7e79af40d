//! The suite's map payloads flattened into rows of named values, and the card
//! states read from them.
use vstd::prelude::*;
use vstd::set_lib::{set_int_range, lemma_int_range, lemma_map_size, lemma_len_subset};
use vstd::utf8::{valid_utf8, decode_utf8};
use crate::protobuf::{ImportError, ProtoField, ProtoValue, fields_from, field_is, parse_fields};
use crate::credentials::{FieldTuple, tuple_u64, lemma_read_values};
use crate::text::{decimal_digits, decimal_value, digit_char, str_chars, chars_eq_str, append_decimal, append_str,
    string_from_chars};

verus! {

/// A value of a row.
#[derive(Debug, Clone, PartialEq, Eq)]
pub enum RowValue {
    U64(u64),
    String(String),
    Bytes(Vec<u8>),
}

/// A row value as plain values.
pub enum RowEntry {
    Number(u64),
    Text(Seq<char>),
    Data(Seq<u8>),
}

/// The plain form of a row value.
pub open spec fn entry_of(v: RowValue) -> RowEntry {
    match v {
        RowValue::U64(n) => RowEntry::Number(n),
        RowValue::String(s) => RowEntry::Text(s@),
        RowValue::Bytes(b) => RowEntry::Data(b@),
    }
}

/// A message flattened into named values, each name once, in the order they were added.
#[derive(Debug, Clone, PartialEq, Eq)]
pub struct Row {
    pub values: Vec<(String, RowValue)>,
}

/// Names and values of a row.
pub type RowView = Seq<(Seq<char>, RowEntry)>;

impl View for Row {
    type V = RowView;

    open spec fn view(&self) -> RowView {
        self.values@.map_values(|e: (String, RowValue)| (e.0@, entry_of(e.1)))
    }
}

/// The row has a value named `k`.
pub open spec fn row_has(r: RowView, k: Seq<char>) -> bool {
    exists|i: int| 0 <= i < r.len() && #[trigger] r[i].0 == k
}

/// Each name occurs once.
pub open spec fn names_unique(r: RowView) -> bool {
    forall|i: int, j: int| 0 <= i < j < r.len() ==> #[trigger] r[i].0 != #[trigger] r[j].0
}

/// The value named `k`.
pub open spec fn row_get(r: RowView, k: Seq<char>) -> Option<RowEntry>
    decreases r.len(),
{
    if r.len() == 0 {
        None
    } else if r.last().0 == k {
        Some(r.last().1)
    } else {
        row_get(r.drop_last(), k)
    }
}

/// `key` followed by an underscore and `idx` in decimal.
pub open spec fn suffixed(key: Seq<char>, idx: nat) -> Seq<char> {
    key + "_"@ + decimal_digits(idx)
}

/// The name a value added under `key` gets: `key` itself when it is free,
/// else `key_2`, `key_3`, ... whichever is free first.
pub open spec fn free_name(r: RowView, key: Seq<char>) -> Seq<char> {
    if !row_has(r, key) {
        key
    } else {
        suffixed(key, choose|idx: nat| 2 <= idx && !row_has(r, suffixed(key, idx))
            && forall|j: nat| 2 <= j < idx ==> row_has(r, #[trigger] suffixed(key, j)))
    }
}

proof fn lemma_decimal_value_of_digits(v: nat)
    ensures
        decimal_value(decimal_digits(v)) == v,
    decreases v,
{
    assert((digit_char(v) as u32) == (v % 10) + 48);
    if v < 10 {
        let d = decimal_digits(v);
        assert(d.drop_last() =~= Seq::<char>::empty());
        assert(v % 10 == v);
        assert(decimal_value(d.drop_last()) == 0);
        assert(d.last() == digit_char(v));
        assert(decimal_value(d) == decimal_value(d.drop_last()) * 10 + ((d.last() as u32) - 48) as nat);
    } else {
        lemma_decimal_value_of_digits(v / 10);
        let d = decimal_digits(v);
        assert(d.drop_last() =~= decimal_digits(v / 10));
        assert(d.last() == digit_char(v));
        assert((v / 10) * 10 + v % 10 == v) by (nonlinear_arith);
        assert(decimal_value(d.drop_last()) == v / 10);
        assert(decimal_value(d) == decimal_value(d.drop_last()) * 10 + ((d.last() as u32) - 48) as nat);
    }
}

proof fn lemma_suffixed_injective(key: Seq<char>, a: nat, b: nat)
    requires
        suffixed(key, a) == suffixed(key, b),
    ensures
        a == b,
{
    let n = key.len() + 1;
    let sa = suffixed(key, a);
    let sb = suffixed(key, b);
    assert(sa =~= key + ("_"@ + decimal_digits(a)));
    assert(sb =~= key + ("_"@ + decimal_digits(b)));
    assert(sa.subrange(key.len() as int, sa.len() as int) =~= "_"@ + decimal_digits(a));
    assert(("_"@ + decimal_digits(a)).drop_first() =~= decimal_digits(a)) by { reveal_strlit("_"); }
    assert(("_"@ + decimal_digits(b)).drop_first() =~= decimal_digits(b)) by { reveal_strlit("_"); }
    assert(sb.subrange(key.len() as int, sb.len() as int) =~= "_"@ + decimal_digits(b));
    lemma_decimal_value_of_digits(a);
    lemma_decimal_value_of_digits(b);
}

/// Where the value named `k` is.
pub open spec fn name_position(r: RowView, k: Seq<char>) -> int {
    choose|i: int| 0 <= i < r.len() && r[i].0 == k
}

proof fn lemma_suffixes_bounded(r: RowView, key: Seq<char>, m: int)
    requires
        2 <= m,
        forall|j: nat| 2 <= j < m ==> row_has(r, #[trigger] suffixed(key, j)),
    ensures
        m - 2 <= r.len(),
{
    let x = set_int_range(2, m);
    let f = |j: int| name_position(r, suffixed(key, j as nat));
    lemma_int_range(2, m);
    assert forall|j: int| #[trigger] x.contains(j) implies 0 <= f(j) < r.len() && r[f(j)].0 == suffixed(key, j as nat) by {
        assert(row_has(r, suffixed(key, j as nat)));
    }
    assert(vstd::relations::injective_on(f, x)) by {
        assert forall|a: int, b: int| x.contains(a) && x.contains(b) && #[trigger] f(a) == #[trigger] f(b) implies a == b by {
            lemma_suffixed_injective(key, a as nat, b as nat);
        }
    }
    let y = x.map(f);
    lemma_map_size(x, y, f);
    lemma_int_range(0, r.len() as int);
    assert(y.subset_of(set_int_range(0, r.len() as int)));
    lemma_len_subset(y, set_int_range(0, r.len() as int));
}


impl Row {
    /// A row with no values.
    pub fn new() -> (r: Row)
        ensures
            r@ == Seq::<(Seq<char>, RowEntry)>::empty(),
    {
        let r = Row { values: Vec::new() };
        proof { assert(r@ =~= Seq::<(Seq<char>, RowEntry)>::empty()); }
        r
    }

    fn has_name(&self, key: &Vec<char>) -> (r: bool)
        ensures
            r == row_has(self@, key@),
    {
        let mut i: usize = 0;
        while i < self.values.len()
            invariant
                i <= self.values@.len(),
                forall|k: int| 0 <= k < i ==> #[trigger] self@[k].0 != key@,
            decreases self.values@.len() - i,
        {
            if crate::text::chars_eq(&str_chars(self.values[i].0.as_str()), key) {
                assert(self@[i as int].0 == key@);
                return true;
            }
            i = i + 1;
        }
        false
    }

    /// Adds a value under `key`, or under `key_2`, `key_3`, ... when the name is taken.
    pub fn insert(&mut self, key: String, value: RowValue)
        requires
            names_unique(old(self)@),
        ensures
            names_unique(final(self)@),
            final(self)@ == old(self)@.push((free_name(old(self)@, key@), entry_of(value))),
    {
        let ghost r = self@;
        let key_chars = str_chars(key.as_str());
        let name = if !self.has_name(&key_chars) {
            key
        } else {
            let n = self.values.len();
            assert(n == r.len());
            let mut idx: u128 = 2;
            let mut candidate: Vec<char> = key_chars.clone();
            append_str(&mut candidate, "_");
            crate::text::append_chars(&mut candidate, &crate::text::u128_to_decimal(idx));
            proof { reveal_strlit("_"); }
            while self.has_name(&candidate)
                invariant
                    self@ == r,
                    n == r.len(),
                    2 <= idx <= r.len() + 2,
                    key_chars@ == key@,
                    candidate@ == suffixed(key@, idx as nat),
                    forall|j: nat| 2 <= j < idx ==> row_has(r, #[trigger] suffixed(key@, j)),
                decreases r.len() + 2 - idx,
            {
                proof { lemma_suffixes_bounded(r, key@, idx + 1); }
                idx = idx + 1;
                candidate = key_chars.clone();
                append_str(&mut candidate, "_");
                crate::text::append_chars(&mut candidate, &crate::text::u128_to_decimal(idx));
            }
            proof {
                let pick = choose|i: nat| 2 <= i && !row_has(r, suffixed(key@, i))
                    && forall|j: nat| 2 <= j < i ==> row_has(r, #[trigger] suffixed(key@, j));
                assert(2 <= idx && !row_has(r, suffixed(key@, idx as nat))
                    && forall|j: nat| 2 <= j < idx ==> row_has(r, #[trigger] suffixed(key@, j)));
                if pick < idx {
                    assert(row_has(r, suffixed(key@, pick)));
                } else if pick > idx {
                    assert(row_has(r, suffixed(key@, idx as nat)));
                }
            }
            string_from_chars(&candidate)
        };
        proof {
            assert(name@ == free_name(r, key@));
            assert(!row_has(r, name@));
        }
        let ghost entry = (name@, entry_of(value));
        self.values.push((name, value));
        proof {
            assert(self@ =~= r.push(entry));
            assert forall|i: int, j: int| 0 <= i < j < self@.len() implies #[trigger] self@[i].0 != #[trigger] self@[j].0 by {
                if j == r.len() {
                    assert(self@[i] == r[i]);
                    if r[i].0 == entry.0 {
                        assert(row_has(r, entry.0));
                    }
                } else {
                    assert(self@[i] == r[i] && self@[j] == r[j]);
                }
            }
        }
    }
}


/// The text value named `k`.
pub open spec fn row_text(r: RowView, k: Seq<char>) -> Option<Seq<char>> {
    match row_get(r, k) {
        Some(RowEntry::Text(t)) => Some(t),
        _ => None,
    }
}

/// The number named `k`.
pub open spec fn row_number(r: RowView, k: Seq<char>) -> Option<u64> {
    match row_get(r, k) {
        Some(RowEntry::Number(n)) => Some(n),
        _ => None,
    }
}

/// The bytes named `k`.
pub open spec fn row_data(r: RowView, k: Seq<char>) -> Option<Seq<u8>> {
    match row_get(r, k) {
        Some(RowEntry::Data(d)) => Some(d),
        _ => None,
    }
}

proof fn lemma_row_get_last(r: RowView, k: Seq<char>, n: int)
    requires
        0 <= n <= r.len(),
        forall|i: int| n <= i < r.len() ==> #[trigger] r[i].0 != k,
    ensures
        row_get(r, k) == row_get(r.subrange(0, n), k),
    decreases r.len() - n,
{
    if n < r.len() {
        assert(r.drop_last().subrange(0, n) =~= r.subrange(0, n));
        lemma_row_get_last(r.drop_last(), k, n);
    } else {
        assert(r.subrange(0, n) =~= r);
    }
}

impl Row {
    fn position_of(&self, key: &str) -> (p: Option<usize>)
        ensures
            match p {
                Some(i) => i < self@.len() && self@[i as int].0 == key@ && row_get(self@, key@) == Some(self@[i as int].1),
                None => row_get(self@, key@) is None,
            },
    {
        let key_chars = str_chars(key);
        let mut n: usize = self.values.len();
        while n > 0
            invariant
                n <= self@.len(),
                self@.len() == self.values@.len(),
                key_chars@ == key@,
                forall|i: int| n <= i < self@.len() ==> #[trigger] self@[i].0 != key@,
            decreases n,
        {
            if crate::text::chars_eq(&str_chars(self.values[n - 1].0.as_str()), &key_chars) {
                proof {
                    lemma_row_get_last(self@, key@, n as int);
                    assert(self@.subrange(0, n as int).last() == self@[n - 1]);
                }
                return Some(n - 1);
            }
            n = n - 1;
        }
        proof {
            lemma_row_get_last(self@, key@, 0);
            assert(self@.subrange(0, 0) =~= Seq::<(Seq<char>, RowEntry)>::empty());
        }
        None
    }

    /// The number named `key`.
    pub fn get_u64(&self, key: &str) -> (r: Option<u64>)
        ensures
            r == row_number(self@, key@),
    {
        match self.position_of(key) {
            Some(i) => match &self.values[i].1 {
                RowValue::U64(v) => Some(*v),
                _ => None,
            },
            None => None,
        }
    }

    /// The text named `key`.
    pub fn get_str(&self, key: &str) -> (r: Option<&str>)
        ensures
            match row_text(self@, key@) {
                Some(t) => r matches Some(s) && s@ == t,
                None => r is None,
            },
    {
        match self.position_of(key) {
            Some(i) => match &self.values[i].1 {
                RowValue::String(s) => Some(s.as_str()),
                _ => None,
            },
            None => None,
        }
    }

    /// The bytes named `key`.
    pub fn get_bytes(&self, key: &str) -> (r: Option<&[u8]>)
        ensures
            match row_data(self@, key@) {
                Some(d) => r matches Some(b) && b@ == d,
                None => r is None,
            },
    {
        match self.position_of(key) {
            Some(i) => match &self.values[i].1 {
                RowValue::Bytes(b) => Some(b.as_slice()),
                _ => None,
            },
            None => None,
        }
    }
}


/// Adds a value as `Row::insert` does.
pub open spec fn row_push(r: RowView, key: Seq<char>, e: RowEntry) -> RowView {
    r.push((free_name(r, key), e))
}

/// Bytes a row keeps as text: valid UTF-8 without control characters other
/// than carriage return, line feed and tab.
pub open spec fn row_text_ok(data: Seq<u8>) -> bool {
    valid_utf8(data) && forall|i: int| 0 <= i < decode_utf8(data).len() ==> {
        let c = #[trigger] decode_utf8(data)[i];
        (c as u32) >= 32 || c == '\r' || c == '\n' || c == '\t'
    }
}

/// The entry a non-message field becomes.
pub open spec fn field_entry(t: FieldTuple) -> RowEntry {
    if t.1 == 2 {
        if row_text_ok(t.3) { RowEntry::Text(decode_utf8(t.3)) } else { RowEntry::Data(t.3) }
    } else {
        RowEntry::Number(t.2)
    }
}

/// The fields of a nested message added to a row, each named by `prefix` and
/// its number; bytes that are not text stay bytes.
pub open spec fn flatten_items(prefix: Seq<char>, items: Seq<FieldTuple>, r: RowView) -> RowView
    decreases items.len(),
{
    if items.len() == 0 {
        r
    } else {
        row_push(flatten_items(prefix, items.drop_last(), r), prefix + decimal_digits(items.last().0 as nat),
            field_entry(items.last()))
    }
}

/// A nested message added to a row, or the reader's error.
pub open spec fn flatten_spec(prefix: Seq<char>, buf: Seq<u8>, r: RowView) -> Result<RowView, Seq<char>> {
    match fields_from(buf, 0) {
        Err(m) => Err(m),
        Ok(items) => Ok(flatten_items(prefix, items, r)),
    }
}

/// The fields of a map value added to a row: `f` and the field number names
/// each; a field holding bytes that are not text is read as a message and
/// flattened under `f`, its number and an underscore.
pub open spec fn row_items(items: Seq<FieldTuple>, r: RowView) -> Result<RowView, Seq<char>>
    decreases items.len(),
{
    if items.len() == 0 {
        Ok(r)
    } else {
        match row_items(items.drop_last(), r) {
            Err(m) => Err(m),
            Ok(r1) => {
                let t = items.last();
                let key = "f"@ + decimal_digits(t.0 as nat);
                if t.1 == 2 && !row_text_ok(t.3) {
                    flatten_spec(key + "_"@, t.3, r1)
                } else {
                    Ok(row_push(r1, key, field_entry(t)))
                }
            },
        }
    }
}

/// The rows of a map payload: one for each top-level field 1 holding bytes.
pub open spec fn rows_from(tops: Seq<FieldTuple>) -> Result<Seq<RowView>, Seq<char>>
    decreases tops.len(),
{
    if tops.len() == 0 {
        Ok(Seq::empty())
    } else {
        match rows_from(tops.drop_last()) {
            Err(m) => Err(m),
            Ok(rs) => {
                let t = tops.last();
                if t.0 != 1 || t.1 != 2 {
                    Ok(rs)
                } else {
                    match fields_from(t.3, 0) {
                        Err(m) => Err(m),
                        Ok(items) => match row_items(items, Seq::empty()) {
                            Err(m) => Err(m),
                            Ok(row) => Ok(rs.push(row)),
                        },
                    }
                }
            },
        }
    }
}

/// The rows of a map payload, or the reader's error.
pub open spec fn map_rows_spec(buf: Seq<u8>) -> Result<Seq<RowView>, Seq<char>> {
    match fields_from(buf, 0) {
        Err(m) => Err(m),
        Ok(tops) => rows_from(tops),
    }
}

proof fn lemma_flatten_items_unique(prefix: Seq<char>, items: Seq<FieldTuple>, r: RowView)
    requires
        names_unique(r),
    ensures
        names_unique(flatten_items(prefix, items, r)),
    decreases items.len(),
{
    if items.len() > 0 {
        lemma_flatten_items_unique(prefix, items.drop_last(), r);
        lemma_push_unique(flatten_items(prefix, items.drop_last(), r), prefix + decimal_digits(items.last().0 as nat),
            field_entry(items.last()));
    }
}

proof fn lemma_push_unique(r: RowView, key: Seq<char>, e: RowEntry)
    requires
        names_unique(r),
    ensures
        names_unique(row_push(r, key, e)),
{
    let name = free_name(r, key);
    if row_has(r, key) {
        let w = least_free_suffix(r, key, 2, (r.len() + 3) as nat);
        assert(!row_has(r, name));
    }
    let s = row_push(r, key, e);
    assert forall|i: int, j: int| 0 <= i < j < s.len() implies #[trigger] s[i].0 != #[trigger] s[j].0 by {
        if j == r.len() {
            assert(s[i] == r[i]);
            if r[i].0 == name {
                assert(row_has(r, name));
            }
        } else {
            assert(s[i] == r[i] && s[j] == r[j]);
        }
    }
}

proof fn least_free_suffix(r: RowView, key: Seq<char>, from: nat, to: nat) -> (idx: nat)
    requires
        2 <= from <= to,
        to == r.len() + 3,
        forall|j: nat| 2 <= j < from ==> row_has(r, #[trigger] suffixed(key, j)),
    ensures
        2 <= idx && !row_has(r, suffixed(key, idx)),
        forall|j: nat| 2 <= j < idx ==> row_has(r, #[trigger] suffixed(key, j)),
    decreases to - from,
{
    if !row_has(r, suffixed(key, from)) {
        from
    } else if from + 1 >= to {
        lemma_suffixes_bounded(r, key, (from + 1) as int);
        assert(false);
        from
    } else {
        least_free_suffix(r, key, from + 1, to)
    }
}


/// The entry a protobuf value becomes, as `insert_scalar` makes it.
pub open spec fn scalar_entry(v: ProtoValue) -> RowEntry {
    match v {
        ProtoValue::Varint(n) => RowEntry::Number(n),
        ProtoValue::Fixed32(n) => RowEntry::Number(n as u64),
        ProtoValue::Fixed64(n) => RowEntry::Number(n),
        ProtoValue::Bytes(b) => RowEntry::Data(b@),
    }
}

/// Adds a protobuf value to a row: numbers as numbers, bytes as bytes.
pub fn insert_scalar(row: &mut Row, key: String, value: &ProtoValue)
    requires
        names_unique(old(row)@),
    ensures
        names_unique(final(row)@),
        final(row)@ == row_push(old(row)@, key@, scalar_entry(*value)),
{
    match value {
        ProtoValue::Varint(v) => row.insert(key, RowValue::U64(*v)),
        ProtoValue::Fixed32(v) => row.insert(key, RowValue::U64(*v as u64)),
        ProtoValue::Fixed64(v) => row.insert(key, RowValue::U64(*v)),
        ProtoValue::Bytes(v) => {
            let copy = vstd::slice::slice_to_vec(v.as_slice());
            row.insert(key, RowValue::Bytes(copy));
        },
    }
}

/// The text of bytes a row keeps as text.
fn text_of(data: &[u8]) -> (r: Option<String>)
    ensures
        row_text_ok(data@) ==> (r matches Some(s) && s@ == decode_utf8(data@)),
        !row_text_ok(data@) ==> r is None,
{
    match crate::manifest::utf8_text(data) {
        Some(s) => {
            let chars = str_chars(s.as_str());
            let mut i: usize = 0;
            while i < chars.len()
                invariant
                    i <= chars@.len(),
                    chars@ == s@,
                    s@ == decode_utf8(data@),
                    forall|k: int| 0 <= k < i ==> {
                        let c = #[trigger] chars@[k];
                        (c as u32) >= 32 || c == '\r' || c == '\n' || c == '\t'
                    },
                decreases chars@.len() - i,
            {
                let c = chars[i];
                if !((c as u32) >= 32 || c == '\r' || c == '\n' || c == '\t') {
                    assert(!row_text_ok(data@)) by {
                        assert(decode_utf8(data@)[i as int] == c);
                    }
                    return None;
                }
                i = i + 1;
            }
            Some(s)
        },
        None => None,
    }
}

fn numbered_key(prefix: &Vec<char>, field: u64) -> (r: String)
    ensures
        r@ == prefix@ + decimal_digits(field as nat),
{
    let mut chars = prefix.clone();
    append_decimal(&mut chars, field);
    string_from_chars(&chars)
}

/// Adds the fields of a nested message to a row, named by `prefix` and their numbers.
pub fn flatten_message(prefix: &str, buf: &[u8], row: &mut Row) -> (r: Result<(), ImportError>)
    requires
        names_unique(old(row)@),
    ensures
        names_unique(final(row)@),
        match flatten_spec(prefix@, buf@, old(row)@) {
            Ok(v) => r is Ok && final(row)@ == v,
            Err(m) => r matches Err(ImportError::Protobuf(e)) && e@ == m,
        },
{
    let items = match parse_fields(buf) { Ok(f) => f, Err(e) => return Err(e) };
    let ghost ts = fields_from(buf@, 0)->Ok_0;
    let ghost start = row@;
    let prefix_chars = str_chars(prefix);
    let mut k: usize = 0;
    while k < items.len()
        invariant
            k <= items@.len(),
            items@.len() == ts.len(),
            forall|i: int| 0 <= i < ts.len() ==> field_is(#[trigger] items@[i], ts[i]),
            prefix_chars@ == prefix@,
            names_unique(row@),
            row@ == flatten_items(prefix@, ts.subrange(0, k as int), start),
        decreases items@.len() - k,
    {
        let item = &items[k];
        assert(field_is(items@[k as int], ts[k as int]));
        let key = numbered_key(&prefix_chars, item.field);
        proof {
            assert(ts.subrange(0, k + 1).drop_last() =~= ts.subrange(0, k as int));
            assert(ts.subrange(0, k + 1).last() == ts[k as int]);
        }
        if item.wire == 2 {
            match &item.value {
                ProtoValue::Bytes(data) => {
                    match text_of(data.as_slice()) {
                        Some(text) => row.insert(key, RowValue::String(text)),
                        None => {
                            let copy = vstd::slice::slice_to_vec(data.as_slice());
                            row.insert(key, RowValue::Bytes(copy));
                        },
                    }
                },
                _ => {
                    assert(false);
                },
            }
        } else {
            insert_scalar(row, key, &item.value);
        }
        k = k + 1;
    }
    proof { assert(ts.subrange(0, ts.len() as int) =~= ts); }
    Ok(())
}


proof fn lemma_row_items_err_stays(items: Seq<FieldTuple>, r: RowView, n: int)
    requires
        0 <= n <= items.len(),
        row_items(items.subrange(0, n), r) is Err,
    ensures
        row_items(items, r) == row_items(items.subrange(0, n), r),
    decreases items.len() - n,
{
    if n < items.len() {
        assert(items.drop_last().subrange(0, n) =~= items.subrange(0, n));
        lemma_row_items_err_stays(items.drop_last(), r, n);
    } else {
        assert(items.subrange(0, n) =~= items);
    }
}

/// Builds the row of a map value from its fields.
fn fill_row(items: &Vec<ProtoField>, ts: Ghost<Seq<FieldTuple>>) -> (r: Result<Row, ImportError>)
    requires
        items@.len() == ts@.len(),
        forall|i: int| 0 <= i < ts@.len() ==> field_is(#[trigger] items@[i], ts@[i]),
    ensures
        match row_items(ts@, Seq::empty()) {
            Ok(v) => r matches Ok(row) && row@ == v && names_unique(row@),
            Err(m) => r matches Err(ImportError::Protobuf(e)) && e@ == m,
        },
{
    let mut row = Row::new();
    let mut k: usize = 0;
    let mut f: Vec<char> = Vec::new();
    append_str(&mut f, "f");
    proof { reveal_strlit("f"); reveal_strlit("_"); }
    while k < items.len()
        invariant
            k <= items@.len(),
            items@.len() == ts@.len(),
            forall|i: int| 0 <= i < ts@.len() ==> field_is(#[trigger] items@[i], ts@[i]),
            f@ == "f"@,
            names_unique(row@),
            row_items(ts@.subrange(0, k as int), Seq::empty()) == Ok::<RowView, Seq<char>>(row@),
        decreases items@.len() - k,
    {
        let item = &items[k];
        assert(field_is(items@[k as int], ts@[k as int]));
        proof {
            assert(ts@.subrange(0, k + 1).drop_last() =~= ts@.subrange(0, k as int));
            assert(ts@.subrange(0, k + 1).last() == ts@[k as int]);
        }
        let key = numbered_key(&f, item.field);
        if item.wire == 2 {
            match &item.value {
                ProtoValue::Bytes(data) => {
                    match text_of(data.as_slice()) {
                        Some(text) => row.insert(key, RowValue::String(text)),
                        None => {
                            let mut prefix = str_chars(key.as_str());
                            append_str(&mut prefix, "_");
                            let prefix_text = string_from_chars(&prefix);
                            match flatten_message(prefix_text.as_str(), data.as_slice(), &mut row) {
                                Ok(()) => {},
                                Err(e) => {
                                    proof { lemma_row_items_err_stays(ts@, Seq::empty(), k + 1); }
                                    return Err(e);
                                },
                            }
                        },
                    }
                },
                _ => {
                    assert(false);
                },
            }
        } else {
            insert_scalar(&mut row, key, &item.value);
        }
        k = k + 1;
    }
    proof { assert(ts@.subrange(0, ts@.len() as int) =~= ts@); }
    Ok(row)
}

proof fn lemma_rows_from_err_stays(tops: Seq<FieldTuple>, n: int)
    requires
        0 <= n <= tops.len(),
        rows_from(tops.subrange(0, n)) is Err,
    ensures
        rows_from(tops) == rows_from(tops.subrange(0, n)),
    decreases tops.len() - n,
{
    if n < tops.len() {
        assert(tops.drop_last().subrange(0, n) =~= tops.subrange(0, n));
        lemma_rows_from_err_stays(tops.drop_last(), n);
    } else {
        assert(tops.subrange(0, n) =~= tops);
    }
}

/// The rows of a map payload: one for each top-level field 1 holding bytes,
/// read as a message whose fields become named values.
pub fn map_rows(buf: &[u8]) -> (r: Result<Vec<Row>, ImportError>)
    ensures
        match map_rows_spec(buf@) {
            Ok(rs) => r matches Ok(v) && v@.len() == rs.len()
                && forall|i: int| 0 <= i < rs.len() ==> (#[trigger] v@[i])@ == rs[i] && names_unique(rs[i]),
            Err(m) => r matches Err(ImportError::Protobuf(e)) && e@ == m,
        },
{
    let tops = match parse_fields(buf) { Ok(f) => f, Err(e) => return Err(e) };
    let ghost ts = fields_from(buf@, 0)->Ok_0;
    let mut rows: Vec<Row> = Vec::new();
    let ghost mut views: Seq<RowView> = Seq::empty();
    let mut k: usize = 0;
    while k < tops.len()
        invariant
            k <= tops@.len(),
            tops@.len() == ts.len(),
            map_rows_spec(buf@) == rows_from(ts),
            forall|i: int| 0 <= i < ts.len() ==> field_is(#[trigger] tops@[i], ts[i]),
            rows_from(ts.subrange(0, k as int)) == Ok::<Seq<RowView>, Seq<char>>(views),
            rows@.len() == views.len(),
            forall|i: int| 0 <= i < views.len() ==> (#[trigger] rows@[i])@ == views[i],
            forall|i: int| 0 <= i < views.len() ==> names_unique(#[trigger] views[i]),
        decreases tops@.len() - k,
    {
        let top = &tops[k];
        assert(field_is(tops@[k as int], ts[k as int]));
        proof {
            assert(ts.subrange(0, k + 1).drop_last() =~= ts.subrange(0, k as int));
            assert(ts.subrange(0, k + 1).last() == ts[k as int]);
        }
        if top.field == 1 && top.wire == 2 {
            let data = match &top.value {
                ProtoValue::Bytes(data) => data,
                _ => {
                    assert(false);
                    return Err(ImportError::Protobuf(String::new()));
                },
            };
            let items = match parse_fields(data.as_slice()) {
                Ok(f) => f,
                Err(e) => {
                    proof { lemma_rows_from_err_stays(ts, k + 1); }
                    return Err(e);
                },
            };
            let row = match fill_row(&items, Ghost(fields_from(data@, 0)->Ok_0)) {
                Ok(row) => row,
                Err(e) => {
                    proof { lemma_rows_from_err_stays(ts, k + 1); }
                    return Err(e);
                },
            };
            let ghost old_rows = rows@;
            let ghost old_views = views;
            let ghost rv = row@;
            assert(names_unique(rv));
            proof { views = views.push(rv); }
            rows.push(row);
            proof {
                assert forall|i: int| 0 <= i < views.len() implies (#[trigger] rows@[i])@ == views[i] && names_unique(views[i]) by {
                    assert(views[i] == if i < old_views.len() { old_views[i] } else { rv });
                    if i < old_views.len() {
                        assert(rows@[i] == old_rows[i]);
                        assert(views[i] == old_views[i]);
                    } else {
                        assert(rows@[i]@ == rv);
                    }
                }
            }
        }
        k = k + 1;
    }
    proof { assert(ts.subrange(0, ts.len() as int) =~= ts); }
    Ok(rows)
}


/// The three values of the append parameter (`f2_12`, fields 3 to 5), when it reads as a message holding them.
pub open spec fn append_values(r: RowView) -> Option<(u64, u64, u64)> {
    match row_data(r, "f2_12"@) {
        None => None,
        Some(b) => match fields_from(b, 0) {
            Err(_) => None,
            Ok(ts) => match (tuple_u64(ts, 3), tuple_u64(ts, 4), tuple_u64(ts, 5)) {
                (Some(x), Some(y), Some(z)) => Some((x, y, z)),
                _ => None,
            },
        },
    }
}

/// The highest level of a card of the rarity.
pub open spec fn max_level(rarity: int) -> int {
    if rarity == 1 { 20 } else if rarity == 2 { 30 } else if rarity == 3 { 50 } else { 60 }
}

/// The parameter bonus of training a card of the rarity.
pub open spec fn training_bonus(rarity: int) -> int {
    if rarity <= 2 { 0 } else if rarity == 3 { 300 } else { 400 }
}

/// The parameter bonus of reading the first or second episode of a card of the rarity.
pub open spec fn episode_bonus(rarity: int, second: bool) -> int {
    if rarity == 1 {
        if second { 200 } else { 100 }
    } else if rarity == 2 {
        if second { 300 } else { 150 }
    } else if rarity == 3 {
        if second { 500 } else { 200 }
    } else {
        if second { 600 } else { 250 }
    }
}

/// The append parameter a card of the rarity has with the episodes `state` read.
pub open spec fn episode_total(rarity: int, trained: bool, rank: int, state: (bool, bool)) -> int {
    (if trained { training_bonus(rarity) } else { 0 }) + rarity * rank * 50
        + (if state.0 { episode_bonus(rarity, false) } else { 0 })
        + (if state.1 { episode_bonus(rarity, true) } else { 0 })
}

/// Some rarity from `rarity` to 5 fits the card and gives `append` with the episodes `state` read.
pub open spec fn state_possible_from(level: int, trained: bool, rank: int, append: int, state: (bool, bool), rarity: int) -> bool
    decreases 6 - rarity,
{
    if rarity > 5 {
        false
    } else {
        (level <= max_level(rarity) && !(trained && rarity < 3) && episode_total(rarity, trained, rank, state) == append)
            || state_possible_from(level, trained, rank, append, state, rarity + 1)
    }
}

/// The episode state the append parameter of a card row allows, when the
/// parameter's three values agree and exactly one state fits them.
pub open spec fn infer_episodes_spec(r: RowView) -> Option<(bool, bool)> {
    match append_values(r) {
        None => None,
        Some((a, b, c)) => if a != b || a != c {
            None
        } else {
            let level = match row_number(r, "f2_3"@) { Some(n) => n as int, None => 0 };
            let trained = row_text(r, "f2_7"@) == Some("done"@);
            let rank = match row_number(r, "f2_13"@) { Some(n) => n as int, None => 0 };
            let p = |s: (bool, bool)| state_possible_from(level, trained, rank, a as int, s, 1);
            let count = (if p((false, false)) { 1int } else { 0 }) + (if p((true, false)) { 1int } else { 0 })
                + (if p((false, true)) { 1int } else { 0 }) + (if p((true, true)) { 1int } else { 0 });
            if count != 1 {
                None
            } else if p((false, false)) {
                Some((false, false))
            } else if p((true, false)) {
                Some((true, false))
            } else if p((false, true)) {
                Some((false, true))
            } else {
                Some((true, true))
            }
        },
    }
}

/// Which episode states an append parameter fits, written out per rarity: a
/// card of rarity 1 or 2 (levels up to 20 and 30, never trained) has 50 per
/// rarity and limit break rank, plus 100 and 200 (rarity 1) or 150 and 300
/// (rarity 2) for its first and second episode read; a card of rarity 3
/// (levels up to 50) adds 300 when trained and 200 and 500 for its episodes;
/// rarity 4 and 5 (levels up to 60) add 400 when trained and 250 and 600.
pub proof fn lemma_episode_states_by_rarity(level: int, trained: bool, rank: int, append: int, s: (bool, bool))
    ensures
        state_possible_from(level, trained, rank, append, s, 1) <==> {
            ||| (level <= 20 && !trained
                && append == rank * 50 + (if s.0 { 100int } else { 0 }) + (if s.1 { 200int } else { 0 }))
            ||| (level <= 30 && !trained
                && append == 2 * rank * 50 + (if s.0 { 150int } else { 0 }) + (if s.1 { 300int } else { 0 }))
            ||| (level <= 50 && append == (if trained { 300int } else { 0 }) + 3 * rank * 50
                + (if s.0 { 200int } else { 0 }) + (if s.1 { 500int } else { 0 }))
            ||| (level <= 60 && append == (if trained { 400int } else { 0 }) + 4 * rank * 50
                + (if s.0 { 250int } else { 0 }) + (if s.1 { 600int } else { 0 }))
            ||| (level <= 60 && append == (if trained { 400int } else { 0 }) + 5 * rank * 50
                + (if s.0 { 250int } else { 0 }) + (if s.1 { 600int } else { 0 }))
        },
{
    reveal_with_fuel(state_possible_from, 6);
    assert(1 * rank * 50 == rank * 50);
}

/// The card row's append parameter (its field 3) fits the episode state `s`.
pub open spec fn append_fits(r: RowView, s: (bool, bool)) -> bool {
    match append_values(r) {
        None => false,
        Some((a, _b, _c)) => state_possible_from(
            match row_number(r, "f2_3"@) { Some(n) => n as int, None => 0 },
            row_text(r, "f2_7"@) == Some("done"@),
            match row_number(r, "f2_13"@) { Some(n) => n as int, None => 0 },
            a as int, s, 1),
    }
}

/// The inferred episode state is the one state the append parameter fits:
/// a state is inferred only when the three values agree, it fits, and no other
/// state fits; and when they agree and exactly one state fits, it is inferred.
pub proof fn lemma_inferred_state_is_the_only_fit(r: RowView)
    ensures
        infer_episodes_spec(r) matches Some(s) ==> (append_values(r) matches Some((a, b, c)) && a == b && a == c)
            && append_fits(r, s) && forall|t: (bool, bool)| t != s ==> !#[trigger] append_fits(r, t),
        forall|s: (bool, bool)| (append_values(r) matches Some((a, b, c)) && a == b && a == c)
            && #[trigger] append_fits(r, s) && (forall|t: (bool, bool)| t != s ==> !#[trigger] append_fits(r, t))
            ==> infer_episodes_spec(r) == Some(s),
{
    if let Some(s) = infer_episodes_spec(r) {
        assert(append_fits(r, s));
        assert forall|t: (bool, bool)| t != s implies !#[trigger] append_fits(r, t) by {
            assert(t == (false, false) || t == (true, false) || t == (false, true) || t == (true, true));
        }
    }
    assert forall|s: (bool, bool)| (append_values(r) matches Some((a, b, c)) && a == b && a == c)
        && #[trigger] append_fits(r, s) && (forall|t: (bool, bool)| t != s ==> !#[trigger] append_fits(r, t))
        implies infer_episodes_spec(r) == Some(s) by {
        let a = append_values(r)->Some_0.0;
        let level = match row_number(r, "f2_3"@) { Some(n) => n as int, None => 0 };
        let trained = row_text(r, "f2_7"@) == Some("done"@);
        let rank = match row_number(r, "f2_13"@) { Some(n) => n as int, None => 0 };
        assert(append_fits(r, (false, false)) == state_possible_from(level, trained, rank, a as int, (false, false), 1));
        assert(append_fits(r, (true, false)) == state_possible_from(level, trained, rank, a as int, (true, false), 1));
        assert(append_fits(r, (false, true)) == state_possible_from(level, trained, rank, a as int, (false, true), 1));
        assert(append_fits(r, (true, true)) == state_possible_from(level, trained, rank, a as int, (true, true), 1));
        if s == (false, false) {
            assert(!append_fits(r, (true, false)) && !append_fits(r, (false, true)) && !append_fits(r, (true, true)));
        } else if s == (true, false) {
            assert(!append_fits(r, (false, false)) && !append_fits(r, (false, true)) && !append_fits(r, (true, true)));
        } else if s == (false, true) {
            assert(!append_fits(r, (false, false)) && !append_fits(r, (true, false)) && !append_fits(r, (true, true)));
        } else {
            assert(s == (true, true));
            assert(!append_fits(r, (false, false)) && !append_fits(r, (true, false)) && !append_fits(r, (false, true)));
        }
    }
}

fn rarity_table(rarity: u128) -> (r: (u128, u128, u128, u128))
    requires
        1 <= rarity <= 5,
    ensures
        r.0 == max_level(rarity as int),
        r.1 == training_bonus(rarity as int),
        r.2 == episode_bonus(rarity as int, false),
        r.3 == episode_bonus(rarity as int, true),
{
    if rarity == 1 {
        (20, 0, 100, 200)
    } else if rarity == 2 {
        (30, 0, 150, 300)
    } else if rarity == 3 {
        (50, 300, 200, 500)
    } else {
        (60, 400, 250, 600)
    }
}

/// The episode state a card row's append parameter allows, when exactly one fits.
pub fn infer_episodes_from_append_parameter(row: &Row) -> (r: Option<[bool; 2]>)
    ensures
        match infer_episodes_spec(row@) {
            Some(s) => r matches Some(e) && e[0] == s.0 && e[1] == s.1,
            None => r is None,
        },
{
    proof {
        reveal_strlit("f2_12");
        reveal_strlit("f2_3");
        reveal_strlit("f2_7");
        reveal_strlit("f2_13");
        reveal_strlit("done");
    }
    let data = match row.get_bytes("f2_12") { Some(d) => d, None => return None };
    let fields = match parse_fields(data) { Ok(f) => f, Err(_) => return None };
    proof {
        let ts = fields_from(data@, 0)->Ok_0;
        lemma_read_values(fields@, ts, 3);
        lemma_read_values(fields@, ts, 4);
        lemma_read_values(fields@, ts, 5);
    }
    let a = match crate::protobuf::field_u64(fields.as_slice(), 3) { Some(v) => v, None => return None };
    let b = match crate::protobuf::field_u64(fields.as_slice(), 4) { Some(v) => v, None => return None };
    let c = match crate::protobuf::field_u64(fields.as_slice(), 5) { Some(v) => v, None => return None };
    if a != b || a != c {
        return None;
    }
    let level = match row.get_u64("f2_3") { Some(n) => n, None => 0 } as u128;
    let trained = match row.get_str("f2_7") { Some(t) => chars_eq_str(&str_chars(t), "done"), None => false };
    let rank = match row.get_u64("f2_13") { Some(n) => n, None => 0 } as u128;
    let target = a as u128;
    let ghost p = |s: (bool, bool)| state_possible_from(level as int, trained, rank as int, a as int, s, 1);
    let mut ff = false;
    let mut tf = false;
    let mut ft = false;
    let mut tt = false;
    let mut rarity: u128 = 5;
    while rarity >= 1
        invariant
            0 <= rarity <= 5,
            rank < 0x1_0000_0000_0000_0000,
            ff == state_possible_from(level as int, trained, rank as int, target as int, (false, false), rarity + 1),
            tf == state_possible_from(level as int, trained, rank as int, target as int, (true, false), rarity + 1),
            ft == state_possible_from(level as int, trained, rank as int, target as int, (false, true), rarity + 1),
            tt == state_possible_from(level as int, trained, rank as int, target as int, (true, true), rarity + 1),
        decreases rarity,
    {
        let (top, train, first, second) = rarity_table(rarity);
        if level <= top && !(trained && rarity < 3) {
            assert(rarity * rank * 50 <= 5 * 0x1_0000_0000_0000_0000 * 50) by (nonlinear_arith)
                requires rarity <= 5, rank < 0x1_0000_0000_0000_0000;
            let fixed = (if trained { train } else { 0 }) + rarity * rank * 50;
            if fixed == target { ff = true; }
            if fixed + first == target { tf = true; }
            if fixed + second == target { ft = true; }
            if fixed + first + second == target { tt = true; }
        }
        rarity = rarity - 1;
    }
    let count = (if ff { 1u8 } else { 0 }) + (if tf { 1u8 } else { 0 }) + (if ft { 1u8 } else { 0 }) + (if tt { 1u8 } else { 0 });
    if count != 1 {
        None
    } else if ff {
        Some([false, false])
    } else if tf {
        Some([true, false])
    } else if ft {
        Some([false, true])
    } else {
        Some([true, true])
    }
}


/// The episode ids marked read in episode rows, in row order.
pub open spec fn read_ids_in(rows: Seq<RowView>) -> Seq<u64>
    decreases rows.len(),
{
    if rows.len() == 0 {
        Seq::empty()
    } else {
        let r = rows.last();
        read_ids_in(rows.drop_last()) + if row_text(r, "f2_3"@) == Some("already_read"@) && row_number(r, "f2_2"@) is Some {
            seq![row_number(r, "f2_2"@).unwrap()]
        } else {
            Seq::empty()
        }
    }
}

/// `out` holds the values of `all` once each, in increasing order.
pub open spec fn sorted_ids(out: Seq<u64>, all: Seq<u64>) -> bool {
    &&& forall|i: int, j: int| 0 <= i < j < out.len() ==> out[i] < out[j]
    &&& forall|x: u64| out.contains(x) <==> all.contains(x)
}

fn insert_id(out: &mut Vec<u64>, x: u64)
    requires
        forall|i: int, j: int| 0 <= i < j < old(out)@.len() ==> old(out)@[i] < old(out)@[j],
    ensures
        forall|i: int, j: int| 0 <= i < j < final(out)@.len() ==> final(out)@[i] < final(out)@[j],
        final(out)@.contains(x),
        forall|y: u64| #[trigger] final(out)@.contains(y) ==> old(out)@.contains(y) || y == x,
        forall|y: u64| #[trigger] old(out)@.contains(y) ==> final(out)@.contains(y),
{
    let mut p: usize = 0;
    while p < out.len() && out[p] < x
        invariant
            p <= out@.len(),
            forall|i: int| 0 <= i < p ==> #[trigger] out@[i] < x,
        decreases out@.len() - p,
    {
        p = p + 1;
    }
    if p < out.len() && out[p] == x {
        assert(out@[p as int] == x);
        return;
    }
    let ghost before = out@;
    out.insert(p, x);
    proof {
        let after = out@;
        assert(after[p as int] == x);
        assert forall|y: u64| #[trigger] after.contains(y) implies before.contains(y) || y == x by {
            let k = choose|k: int| 0 <= k < after.len() && after[k] == y;
            if k < p { assert(before[k] == y); } else if k > p { assert(before[k - 1] == y); }
        }
        assert forall|y: u64| #[trigger] before.contains(y) implies after.contains(y) by {
            let k = choose|k: int| 0 <= k < before.len() && before[k] == y;
            if k < p { assert(after[k] == y); } else { assert(after[k + 1] == y); }
        }
    }
}

/// The episode ids a user's episode map marks as already read, once each, in increasing order.
pub fn import_read_episode_ids(buf: &[u8]) -> (r: Result<Vec<u64>, ImportError>)
    ensures
        match map_rows_spec(buf@) {
            Ok(rows) => r matches Ok(ids) && sorted_ids(ids@, read_ids_in(rows)),
            Err(m) => r matches Err(ImportError::Protobuf(e)) && e@ == m,
        },
{
    let rows = match map_rows(buf) { Ok(rows) => rows, Err(e) => return Err(e) };
    let ghost views = map_rows_spec(buf@)->Ok_0;
    proof {
        reveal_strlit("f2_3");
        reveal_strlit("f2_2");
        reveal_strlit("already_read");
    }
    let mut ids: Vec<u64> = Vec::new();
    let mut k: usize = 0;
    while k < rows.len()
        invariant
            k <= rows@.len(),
            rows@.len() == views.len(),
            forall|i: int| 0 <= i < views.len() ==> (#[trigger] rows@[i])@ == views[i],
            forall|i: int, j: int| 0 <= i < j < ids@.len() ==> ids@[i] < ids@[j],
            forall|x: u64| ids@.contains(x) <==> read_ids_in(views.subrange(0, k as int)).contains(x),
        decreases rows@.len() - k,
    {
        let row = &rows[k];
        assert(row@ == views[k as int]);
        let ghost sub = views.subrange(0, k + 1);
        proof {
            assert(sub.drop_last() =~= views.subrange(0, k as int));
            assert(sub.last() == views[k as int]);
        }
        let read = match row.get_str("f2_3") {
            Some(t) => chars_eq_str(&str_chars(t), "already_read"),
            None => false,
        };
        let ghost before = ids@;
        let ghost prefix = read_ids_in(views.subrange(0, k as int));
        if read {
            match row.get_u64("f2_2") {
                Some(id) => {
                    insert_id(&mut ids, id);
                    proof {
                        assert(read_ids_in(sub) == prefix + seq![id]);
                        assert forall|x: u64| ids@.contains(x) <==> read_ids_in(sub).contains(x) by {
                            if ids@.contains(x) {
                                if x != id {
                                    assert(before.contains(x));
                                    let i = choose|i: int| 0 <= i < prefix.len() && prefix[i] == x;
                                    assert((prefix + seq![id])[i] == x);
                                } else {
                                    assert((prefix + seq![id])[prefix.len() as int] == x);
                                }
                            }
                            if read_ids_in(sub).contains(x) {
                                let i = choose|i: int| 0 <= i < read_ids_in(sub).len() && read_ids_in(sub)[i] == x;
                                if i < prefix.len() {
                                    assert(prefix[i] == x);
                                    assert(prefix.contains(x));
                                    assert(before.contains(x));
                                }
                            }
                        }
                    }
                },
                None => {
                    proof { assert(read_ids_in(sub) =~= prefix); }
                },
            }
        } else {
            proof { assert(read_ids_in(sub) =~= prefix); }
        }
        k = k + 1;
    }
    proof { assert(views.subrange(0, views.len() as int) =~= views); }
    Ok(ids)
}


/// The state of one of the player's cards.
#[derive(Debug, Clone, Copy, PartialEq, Eq)]
pub struct PlayerCardConfig {
    pub level: u8,
    pub training: bool,
    pub illust_training_status: bool,
    pub episodes: [bool; 2],
    pub limit_break_rank: u8,
    pub skill_level: u8,
}

/// A byte from an optional number: 0 when it is missing or above 255.
pub open spec fn u8_of(v: Option<u64>) -> u8 {
    match v {
        Some(n) => if n <= 255 { n as u8 } else { 0 },
        None => 0,
    }
}

/// Which episodes of a card row count as read: by the read episode ids when
/// they and the card's episode ids are known, else as the append parameter
/// allows, else none.
pub open spec fn row_episodes(r: RowView, read: Option<Seq<u64>>, looked_up: Option<[u64; 2]>) -> (bool, bool) {
    let fallback = match infer_episodes_spec(r) {
        Some(e) => e,
        None => (false, false),
    };
    match read {
        Some(ids) => match looked_up {
            Some(e) => (ids.contains(e[0]), ids.contains(e[1])),
            None => fallback,
        },
        None => fallback,
    }
}

/// `c` is the card a row describes, with the episodes `e` read.
pub open spec fn card_from_row(c: PlayerCardConfig, r: RowView, e: (bool, bool)) -> bool {
    &&& c.level == u8_of(row_number(r, "f2_3"@))
    &&& c.training == (row_text(r, "f2_7"@) == Some("done"@))
    &&& c.illust_training_status == (row_text(r, "f2_9"@) == Some("after_training"@))
    &&& c.episodes[0] == e.0
    &&& c.episodes[1] == e.1
    &&& c.limit_break_rank == u8_of(row_number(r, "f2_13"@))
    &&& c.skill_level == (if u8_of(row_number(r, "f2_11"@)) >= 1 { u8_of(row_number(r, "f2_11"@)) } else { 1 })
}

/// Each card id occurs once in the card list.
pub open spec fn card_keys_unique<V>(l: Seq<(Seq<char>, V)>) -> bool {
    forall|i: int, j: int| 0 <= i < j < l.len() ==> #[trigger] l[i].0 != #[trigger] l[j].0
}

/// The card stored under `key`.
pub open spec fn card_lookup<V>(l: Seq<(Seq<char>, V)>, key: Seq<char>) -> Option<V>
    decreases l.len(),
{
    if l.len() == 0 {
        None
    } else if l.last().0 == key {
        Some(l.last().1)
    } else {
        card_lookup(l.drop_last(), key)
    }
}

/// The last of the first `n` rows that names the card `key` (its `f2_2` in decimal).
pub open spec fn last_card_row(rows: Seq<RowView>, key: Seq<char>, n: int) -> Option<int>
    decreases n,
{
    if n <= 0 {
        None
    } else if row_number(rows[n - 1], "f2_2"@) matches Some(id) && decimal_digits(id as nat) == key {
        Some(n - 1)
    } else {
        last_card_row(rows, key, n - 1)
    }
}

proof fn lemma_last_card_row_bounds(rows: Seq<RowView>, key: Seq<char>, n: int)
    ensures
        last_card_row(rows, key, n) matches Some(j) ==> 0 <= j < n,
    decreases n,
{
    if n > 0 {
        lemma_last_card_row_bounds(rows, key, n - 1);
    }
}

proof fn lemma_card_lookup_at<V>(l: Seq<(Seq<char>, V)>, key: Seq<char>, i: int)
    requires
        card_keys_unique(l),
        0 <= i < l.len(),
        l[i].0 == key,
    ensures
        card_lookup(l, key) == Some(l[i].1),
    decreases l.len(),
{
    if i < l.len() - 1 {
        assert(l[i].0 != l[l.len() - 1].0);
        let m = l.drop_last();
        assert(card_keys_unique(m)) by {
            assert forall|a: int, b: int| 0 <= a < b < m.len() implies #[trigger] m[a].0 != #[trigger] m[b].0 by {
                assert(m[a] == l[a] && m[b] == l[b]);
            }
        }
        assert(m[i] == l[i]);
        lemma_card_lookup_at(m, key, i);
    }
}

proof fn lemma_card_lookup_absent<V>(l: Seq<(Seq<char>, V)>, key: Seq<char>)
    requires
        forall|i: int| 0 <= i < l.len() ==> #[trigger] l[i].0 != key,
    ensures
        card_lookup(l, key) is None,
    decreases l.len(),
{
    if l.len() > 0 {
        let m = l.drop_last();
        assert forall|i: int| 0 <= i < m.len() implies #[trigger] m[i].0 != key by {
            assert(m[i] == l[i]);
        }
        lemma_card_lookup_absent(m, key);
    }
}

proof fn lemma_card_lookup_set<V>(l: Seq<(Seq<char>, V)>, i: int, key: Seq<char>, c: V, other: Seq<char>)
    requires
        card_keys_unique(l),
        0 <= i < l.len(),
        l[i].0 == key,
    ensures
        card_lookup(l.update(i, (key, c)), key) == Some(c),
        other != key ==> card_lookup(l.update(i, (key, c)), other) == card_lookup(l, other),
    decreases l.len(),
{
    let u = l.update(i, (key, c));
    if i == l.len() - 1 {
        assert(u.drop_last() =~= l.drop_last());
    } else {
        let m = l.drop_last();
        assert(card_keys_unique(m)) by {
            assert forall|a: int, b: int| 0 <= a < b < m.len() implies #[trigger] m[a].0 != #[trigger] m[b].0 by {
                assert(m[a] == l[a] && m[b] == l[b]);
            }
        }
        assert(l[i].0 != l[l.len() - 1].0);
        lemma_card_lookup_set(m, i, key, c, other);
        assert(u.drop_last() =~= m.update(i, (key, c)));
        assert(u.last() == l.last());
    }
}

fn card_position<V>(cards: &Vec<(String, V)>, key: &Vec<char>) -> (r: Option<usize>)
    ensures
        match r {
            Some(i) => i < cards@.len() && cards@[i as int].0@ == key@,
            None => forall|i: int| 0 <= i < cards@.len() ==> #[trigger] cards@[i].0@ != key@,
        },
{
    let mut i: usize = 0;
    while i < cards.len()
        invariant
            i <= cards@.len(),
            forall|k: int| 0 <= k < i ==> #[trigger] cards@[k].0@ != key@,
        decreases cards@.len() - i,
    {
        if crate::text::chars_eq(&str_chars(cards[i].0.as_str()), key) {
            return Some(i);
        }
        i = i + 1;
    }
    None
}

fn contains_id(ids: &Vec<u64>, x: u64) -> (r: bool)
    ensures
        r == ids@.contains(x),
{
    let mut i: usize = 0;
    while i < ids.len()
        invariant
            i <= ids@.len(),
            forall|k: int| 0 <= k < i ==> #[trigger] ids@[k] != x,
        decreases ids@.len() - i,
    {
        if ids[i] == x {
            return true;
        }
        i = i + 1;
    }
    false
}


/// The read episode ids as values.
pub open spec fn read_view(read: Option<&Vec<u64>>) -> Option<Seq<u64>> {
    match read {
        Some(v) => Some(v@),
        None => None,
    }
}

/// The card list as names and cards.
pub open spec fn cards_view<V>(l: Seq<(String, V)>) -> Seq<(Seq<char>, V)> {
    l.map_values(|e: (String, V)| (e.0@, e.1))
}

/// After the rows `0..n`: each card named by a row is the one its last row
/// describes, the episode ids looked up for row `k` being `looked_up[k]`; the
/// other cards are as they were.
pub open spec fn cards_after_rows(
    rows: Seq<RowView>,
    read: Option<Seq<u64>>,
    looked_up: Seq<Option<[u64; 2]>>,
    before: Seq<(Seq<char>, PlayerCardConfig)>,
    after: Seq<(Seq<char>, PlayerCardConfig)>,
    n: int,
) -> bool {
    forall|key: Seq<char>| match #[trigger] last_card_row(rows, key, n) {
        Some(k) => card_lookup(after, key) matches Some(c) && card_from_row(c, rows[k], row_episodes(rows[k], read, looked_up[k])),
        None => card_lookup(after, key) == card_lookup(before, key),
    }
}

/// Adds the cards of a user's situation map to the card list, each under its
/// id in decimal; `episode_ids_for_card` gives a card's two episode ids, and is
/// asked only when the read episode ids are known.
pub fn import_user_situations<F: Fn(u64) -> Option<[u64; 2]>>(
    buf: &[u8],
    cards: &mut Vec<(String, PlayerCardConfig)>,
    read_episode_ids: Option<&Vec<u64>>,
    episode_ids_for_card: &F,
) -> (r: Result<(), ImportError>)
    requires
        card_keys_unique(cards_view(old(cards)@)),
        forall|id: u64| #[trigger] episode_ids_for_card.requires((id,)),
    ensures
        match map_rows_spec(buf@) {
            Err(m) => r matches Err(ImportError::Protobuf(e)) && e@ == m,
            Ok(rows) => r is Ok && card_keys_unique(cards_view(final(cards)@))
                && exists|looked_up: Seq<Option<[u64; 2]>>| {
                    &&& looked_up.len() == rows.len()
                    &&& forall|k: int| 0 <= k < rows.len() && read_episode_ids is Some
                        && row_number(rows[k], "f2_2"@) is Some
                        ==> episode_ids_for_card.ensures((row_number(rows[k], "f2_2"@).unwrap(),), #[trigger] looked_up[k])
                    &&& cards_after_rows(rows, read_view(read_episode_ids), looked_up, cards_view(old(cards)@),
                        cards_view(final(cards)@), rows.len() as int)
                },
        },
{
    let rows = match map_rows(buf) { Ok(rows) => rows, Err(e) => return Err(e) };
    let ghost views = map_rows_spec(buf@)->Ok_0;
    let ghost start = cards_view(cards@);
    let ghost mut looked_up: Seq<Option<[u64; 2]>> = Seq::empty();
    proof {
        reveal_strlit("f2_2");
        reveal_strlit("f2_3");
        reveal_strlit("f2_7");
        reveal_strlit("f2_9");
        reveal_strlit("f2_11");
        reveal_strlit("f2_13");
        reveal_strlit("done");
        reveal_strlit("after_training");
    }
    let mut k: usize = 0;
    while k < rows.len()
        invariant
            k <= rows@.len(),
            rows@.len() == views.len(),
            forall|i: int| 0 <= i < views.len() ==> (#[trigger] rows@[i])@ == views[i],
            forall|id: u64| #[trigger] episode_ids_for_card.requires((id,)),
            card_keys_unique(cards_view(cards@)),
            looked_up.len() == k,
            forall|i: int| 0 <= i < k && read_episode_ids is Some && row_number(views[i], "f2_2"@) is Some
                ==> episode_ids_for_card.ensures((row_number(views[i], "f2_2"@).unwrap(),), #[trigger] looked_up[i]),
            cards_after_rows(views, read_view(read_episode_ids), looked_up, start, cards_view(cards@), k as int),
        decreases rows@.len() - k,
    {
        let row = &rows[k];
        assert(row@ == views[k as int]);
        let ghost prev_looked = looked_up;
        match row.get_u64("f2_2") {
            None => {
                proof {
                    looked_up = looked_up.push(None);
                    assert forall|key: Seq<char>| #[trigger] last_card_row(views, key, k + 1) == last_card_row(views, key, k as int) by {}
                    assert forall|i: int| 0 <= i < k + 1 && read_episode_ids is Some && row_number(views[i], "f2_2"@) is Some
                        implies episode_ids_for_card.ensures((row_number(views[i], "f2_2"@).unwrap(),), #[trigger] looked_up[i]) by {
                        assert(i < k);
                        assert(looked_up[i] == prev_looked[i]);
                    }
                    assert forall|key: Seq<char>| match #[trigger] last_card_row(views, key, k + 1) {
                        Some(j) => card_lookup(cards_view(cards@), key) matches Some(c)
                            && card_from_row(c, views[j], row_episodes(views[j], read_view(read_episode_ids), looked_up[j])),
                        None => card_lookup(cards_view(cards@), key) == card_lookup(start, key),
                    } by {
                        assert(last_card_row(views, key, k + 1) == last_card_row(views, key, k as int));
                        lemma_last_card_row_bounds(views, key, k as int);
                        if let Some(j) = last_card_row(views, key, k as int) {
                            assert(looked_up[j] == prev_looked[j]);
                        }
                    }
                }
            },
            Some(card_id) => {
                let looked: Option<[u64; 2]> = match read_episode_ids {
                    Some(_) => episode_ids_for_card(card_id),
                    None => None,
                };
                let fallback = match infer_episodes_from_append_parameter(row) {
                    Some(e) => e,
                    None => [false, false],
                };
                let episodes = match read_episode_ids {
                    Some(read) => match looked {
                        Some(ids) => [contains_id(read, ids[0]), contains_id(read, ids[1])],
                        None => fallback,
                    },
                    None => fallback,
                };
                let training = match row.get_str("f2_7") { Some(t) => chars_eq_str(&str_chars(t), "done"), None => false };
                let illust = match row.get_str("f2_9") { Some(t) => chars_eq_str(&str_chars(t), "after_training"), None => false };
                let skill = crate::protobuf::u8_from(row.get_u64("f2_11"));
                let config = PlayerCardConfig {
                    level: crate::protobuf::u8_from(row.get_u64("f2_3")),
                    training,
                    illust_training_status: illust,
                    episodes,
                    limit_break_rank: crate::protobuf::u8_from(row.get_u64("f2_13")),
                    skill_level: if skill >= 1 { skill } else { 1 },
                };
                proof {
                    looked_up = looked_up.push(looked);
                    assert(card_from_row(config, views[k as int], row_episodes(views[k as int], read_view(read_episode_ids), looked)));
                }
                let mut key_chars: Vec<char> = Vec::new();
                append_decimal(&mut key_chars, card_id);
                let key = string_from_chars(&key_chars);
                let ghost kv = key@;
                upsert(cards, key, config);
                proof {
                    assert forall|i: int| 0 <= i < k + 1 && read_episode_ids is Some && row_number(views[i], "f2_2"@) is Some
                        implies episode_ids_for_card.ensures((row_number(views[i], "f2_2"@).unwrap(),), #[trigger] looked_up[i]) by {
                        if i < k {
                            assert(looked_up[i] == prev_looked[i]);
                        }
                    }
                    assert forall|key: Seq<char>| match #[trigger] last_card_row(views, key, k + 1) {
                        Some(j) => card_lookup(cards_view(cards@), key) matches Some(c)
                            && card_from_row(c, views[j], row_episodes(views[j], read_view(read_episode_ids), looked_up[j])),
                        None => card_lookup(cards_view(cards@), key) == card_lookup(start, key),
                    } by {
                        if key == kv {
                            assert(last_card_row(views, key, k + 1) == Some(k as int));
                        } else {
                            assert(last_card_row(views, key, k + 1) == last_card_row(views, key, k as int));
                            lemma_last_card_row_bounds(views, key, k as int);
                            if let Some(j) = last_card_row(views, key, k as int) {
                                assert(looked_up[j] == prev_looked[j]);
                            }
                        }
                    }
                }
            },
        }
        k = k + 1;
    }
    Ok(())
}


/// Stores `value` under `key` in a list of named entries, replacing the entry
/// of that name if there is one.
fn upsert<V>(entries: &mut Vec<(String, V)>, key: String, value: V)
    requires
        card_keys_unique(cards_view(old(entries)@)),
    ensures
        card_keys_unique(cards_view(final(entries)@)),
        forall|other: Seq<char>| #[trigger] card_lookup(cards_view(final(entries)@), other)
            == if other == key@ { Some(value) } else { card_lookup(cards_view(old(entries)@), other) },
{
    let ghost before = cards_view(entries@);
    let ghost kv = key@;
    let key_chars = str_chars(key.as_str());
    match card_position(entries, &key_chars) {
        Some(i) => {
            proof { assert(before[i as int].0 == kv); }
            entries.set(i, (key, value));
            proof {
                assert(cards_view(entries@) =~= before.update(i as int, (kv, value)));
                assert(card_keys_unique(cards_view(entries@))) by {
                    let after = cards_view(entries@);
                    assert forall|a: int, b: int| 0 <= a < b < after.len() implies #[trigger] after[a].0 != #[trigger] after[b].0 by {
                        assert(after[a].0 == before[a].0 && after[b].0 == before[b].0);
                    }
                }
                assert forall|other: Seq<char>| #[trigger] card_lookup(cards_view(entries@), other)
                    == if other == kv { Some(value) } else { card_lookup(before, other) } by {
                    lemma_card_lookup_set(before, i as int, kv, value, other);
                }
            }
        },
        None => {
            entries.push((key, value));
            proof {
                assert(cards_view(entries@) =~= before.push((kv, value)));
                assert(card_keys_unique(cards_view(entries@))) by {
                    let after = cards_view(entries@);
                    assert forall|a: int, b: int| 0 <= a < b < after.len() implies #[trigger] after[a].0 != #[trigger] after[b].0 by {
                        if b == before.len() {
                            assert(after[a] == before[a]);
                            assert(before[a].0 == entries@[a].0@);
                        }
                    }
                }
                assert forall|other: Seq<char>| #[trigger] card_lookup(cards_view(entries@), other)
                    == if other == kv { Some(value) } else { card_lookup(before, other) } by {
                    assert(cards_view(entries@).drop_last() =~= before);
                }
            }
        },
    }
}

/// The level of one of the player's area items.
#[derive(Debug, Clone, Copy, PartialEq, Eq, Structural)]
pub struct AreaItemConfig {
    pub level: u8,
}

/// The last of the first `n` rows that names the area item category `key`
/// (its `f2_3` in decimal).
pub open spec fn last_area_row(rows: Seq<RowView>, key: Seq<char>, n: int) -> Option<int>
    decreases n,
{
    if n <= 0 {
        None
    } else if row_number(rows[n - 1], "f2_3"@) matches Some(id) && decimal_digits(id as nat) == key {
        Some(n - 1)
    } else {
        last_area_row(rows, key, n - 1)
    }
}

proof fn lemma_last_area_row_bounds(rows: Seq<RowView>, key: Seq<char>, n: int)
    ensures
        last_area_row(rows, key, n) matches Some(j) ==> 0 <= j < n,
    decreases n,
{
    if n > 0 {
        lemma_last_area_row_bounds(rows, key, n - 1);
    }
}

/// After the rows `0..n`: each category named by a row has the level (`f2_4`)
/// of its last row; the other categories are as they were.
pub open spec fn area_items_after_rows(
    rows: Seq<RowView>,
    before: Seq<(Seq<char>, AreaItemConfig)>,
    after: Seq<(Seq<char>, AreaItemConfig)>,
    n: int,
) -> bool {
    forall|key: Seq<char>| match #[trigger] last_area_row(rows, key, n) {
        Some(k) => card_lookup(after, key) == Some(AreaItemConfig { level: u8_of(row_number(rows[k], "f2_4"@)) }),
        None => card_lookup(after, key) == card_lookup(before, key),
    }
}

/// Adds the player's area items to the list, each under its category id in
/// decimal.
pub fn import_area_items(buf: &[u8], area_items: &mut Vec<(String, AreaItemConfig)>) -> (r: Result<(), ImportError>)
    requires
        card_keys_unique(cards_view(old(area_items)@)),
    ensures
        match map_rows_spec(buf@) {
            Err(m) => r matches Err(ImportError::Protobuf(e)) && e@ == m && final(area_items)@ == old(area_items)@,
            Ok(rows) => r is Ok && card_keys_unique(cards_view(final(area_items)@))
                && area_items_after_rows(rows, cards_view(old(area_items)@), cards_view(final(area_items)@), rows.len() as int),
        },
{
    let rows = match map_rows(buf) { Ok(rows) => rows, Err(e) => return Err(e) };
    let ghost views = map_rows_spec(buf@)->Ok_0;
    let ghost start = cards_view(area_items@);
    proof {
        reveal_strlit("f2_3");
        reveal_strlit("f2_4");
    }
    let mut k: usize = 0;
    while k < rows.len()
        invariant
            k <= rows@.len(),
            rows@.len() == views.len(),
            forall|i: int| 0 <= i < views.len() ==> (#[trigger] rows@[i])@ == views[i],
            card_keys_unique(cards_view(area_items@)),
            area_items_after_rows(views, start, cards_view(area_items@), k as int),
        decreases rows@.len() - k,
    {
        let row = &rows[k];
        assert(row@ == views[k as int]);
        match row.get_u64("f2_3") {
            None => {
                proof {
                    assert forall|key: Seq<char>| #[trigger] last_area_row(views, key, k + 1) == last_area_row(views, key, k as int) by {}
                }
            },
            Some(category) => {
                let config = AreaItemConfig { level: crate::protobuf::u8_from(row.get_u64("f2_4")) };
                let mut key_chars: Vec<char> = Vec::new();
                append_decimal(&mut key_chars, category);
                let key = string_from_chars(&key_chars);
                let ghost kv = key@;
                upsert(area_items, key, config);
                proof {
                    assert forall|key: Seq<char>| match #[trigger] last_area_row(views, key, k + 1) {
                        Some(j) => card_lookup(cards_view(area_items@), key) == Some(AreaItemConfig { level: u8_of(row_number(views[j], "f2_4"@)) }),
                        None => card_lookup(cards_view(area_items@), key) == card_lookup(start, key),
                    } by {
                        if key == kv {
                            assert(last_area_row(views, key, k + 1) == Some(k as int));
                        } else {
                            assert(last_area_row(views, key, k + 1) == last_area_row(views, key, k as int));
                            lemma_last_area_row_bounds(views, key, k as int);
                        }
                    }
                }
            },
        }
        k = k + 1;
    }
    Ok(())
}

} // verus!
