//! JSON values as the library holds them: what a fact record is made of.
use vstd::prelude::*;

use crate::order::SortKey;
use crate::text::{chars_of, str_eq, Chars};

verus! {

/// A JSON value. Numbers keep their text; an object keeps its fields in order.
#[derive(Debug)]
pub enum JsonValue {
    Null,
    Bool(bool),
    Number(String),
    Str(String),
    Array(Vec<JsonValue>),
    Object(Vec<JsonField>),
}

/// One field of a JSON object.
#[derive(Debug)]
pub struct JsonField {
    pub key: String,
    pub value: JsonValue,
}

/// The value of the first field with the key.
pub open spec fn field_lookup(fields: Seq<JsonField>, key: Chars) -> Option<JsonValue>
    decreases fields.len(),
{
    if fields.len() == 0 {
        None
    } else if fields[0].key@ == key {
        Some(fields[0].value)
    } else {
        field_lookup(fields.drop_first(), key)
    }
}

/// The fields of an object (none for other values).
pub open spec fn object_fields(v: JsonValue) -> Seq<JsonField> {
    match v {
        JsonValue::Object(f) => f@,
        _ => Seq::empty(),
    }
}

/// The characters of a string field of an object.
pub open spec fn str_field(v: JsonValue, key: Chars) -> Option<Chars> {
    match v {
        JsonValue::Object(f) => match field_lookup(f@, key) {
            Some(JsonValue::Str(s)) => Some(s@),
            _ => None,
        },
        _ => None,
    }
}

/// The strings of an array of strings.
pub open spec fn str_items(v: JsonValue) -> Option<Seq<Chars>> {
    match v {
        JsonValue::Array(a) => if forall|i: int| 0 <= i < a@.len() ==> (#[trigger] a@[i]) is Str {
            Some(Seq::new(a@.len(), |i: int| a@[i]->Str_0@))
        } else {
            None
        },
        _ => None,
    }
}

/// The string items of an array field (non-strings skipped), or none.
pub open spec fn string_items_of(v: JsonValue) -> Seq<Chars>
    decreases v,
{
    match v {
        JsonValue::Array(a) => strings_among(a@),
        _ => Seq::empty(),
    }
}

/// The strings among the values, in order.
pub open spec fn strings_among(a: Seq<JsonValue>) -> Seq<Chars>
    decreases a.len(),
{
    if a.len() == 0 {
        Seq::empty()
    } else {
        strings_among(a.drop_last()) + match a.last() {
            JsonValue::Str(s) => seq![s@],
            _ => Seq::empty(),
        }
    }
}

/// The value of the first field with the key.
pub fn get_field<'a>(fields: &'a Vec<JsonField>, key: &str) -> (r: Option<&'a JsonValue>)
    ensures
        match r {
            Some(v) => field_lookup(fields@, key@) == Some(*v),
            None => field_lookup(fields@, key@) is None,
        },
{
    let mut i: usize = 0;
    assert(fields@.skip(0) =~= fields@);
    while i < fields.len()
        invariant
            i <= fields@.len(),
            field_lookup(fields@, key@) == field_lookup(fields@.skip(i as int), key@),
        decreases fields@.len() - i,
    {
        assert(fields@.skip(i as int)[0] == fields@[i as int]);
        assert(fields@.skip(i as int).drop_first() =~= fields@.skip(i + 1));
        if str_eq(fields[i].key.as_str(), key) {
            return Some(&fields[i].value);
        }
        i += 1;
    }
    assert(fields@.skip(fields@.len() as int) =~= Seq::<JsonField>::empty());
    None
}

/// The string field of an object, if it is one.
pub fn get_str_field<'a>(v: &'a JsonValue, key: &str) -> (r: Option<&'a str>)
    ensures
        match r {
            Some(s) => str_field(*v, key@) == Some(s@),
            None => str_field(*v, key@) is None,
        },
{
    match v {
        JsonValue::Object(fields) => match get_field(fields, key) {
            Some(JsonValue::Str(s)) => Some(s.as_str()),
            _ => None,
        },
        _ => None,
    }
}

/// The string items of an array value (non-strings skipped).
pub fn string_items(v: &JsonValue) -> (r: Vec<String>)
    ensures
        crate::order::views(r@) == string_items_of(*v),
{
    let mut r: Vec<String> = Vec::new();
    match v {
        JsonValue::Array(a) => {
            let mut i: usize = 0;
            while i < a.len()
                invariant
                    i <= a@.len(),
                    crate::order::views(r@) == strings_among(a@.take(i as int)),
                decreases a@.len() - i,
            {
                assert(a@.take(i + 1).drop_last() =~= a@.take(i as int));
                let ghost prev = crate::order::views(r@);
                match &a[i] {
                    JsonValue::Str(s) => {
                        r.push(s.clone());
                        assert(crate::order::views(r@) =~= prev + seq![s@]);
                    },
                    _ => {
                        assert(crate::order::views(r@) =~= prev + Seq::<Chars>::empty());
                    },
                }
                i += 1;
            }
            assert(a@.take(a@.len() as int) =~= a@);
        },
        _ => {
            assert(crate::order::views(r@) =~= Seq::<Chars>::empty());
        },
    }
    r
}

/// An array of strings.
pub fn string_array(items: &Vec<String>) -> (v: JsonValue)
    ensures
        str_items(v) == Some(crate::order::views(items@)),
{
    let mut a: Vec<JsonValue> = Vec::new();
    let mut i: usize = 0;
    while i < items.len()
        invariant
            i <= items@.len(),
            a@.len() == i,
            forall|k: int| 0 <= k < i ==> (#[trigger] a@[k]) is Str && a@[k]->Str_0@ == items@[k]@,
        decreases items@.len() - i,
    {
        a.push(JsonValue::Str(items[i].clone()));
        i += 1;
    }
    let v = JsonValue::Array(a);
    assert(Seq::new(a@.len(), |k: int| a@[k]->Str_0@) =~= crate::order::views(items@));
    v
}

/// The id of a fact record: its `fact_id` string, or empty without one.
pub open spec fn fact_id_key(v: JsonValue) -> Chars {
    match str_field(v, "fact_id"@) {
        Some(s) => s,
        None => Seq::empty(),
    }
}

impl SortKey for JsonValue {
    open spec fn key(&self) -> Seq<Chars> {
        seq![fact_id_key(*self)]
    }

    fn exec_key(&self) -> (k: Vec<Vec<char>>) {
        let mut k: Vec<Vec<char>> = Vec::new();
        match get_str_field(self, "fact_id") {
            Some(s) => k.push(chars_of(s)),
            None => k.push(Vec::new()),
        }
        assert(crate::order::key_view(k) =~= seq![fact_id_key(*self)]);
        k
    }
}

} // verus!

verus! {

proof fn lemma_lookup_none(fields: Seq<JsonField>, k: Chars)
    requires
        forall|j: int| 0 <= j < fields.len() ==> (#[trigger] fields[j]).key@ != k,
    ensures
        field_lookup(fields, k) is None,
    decreases fields.len(),
{
    if fields.len() > 0 {
        assert(fields[0].key@ != k);
        assert forall|j: int| 0 <= j < fields.drop_first().len() implies (#[trigger] fields.drop_first()[j]).key@ != k by {
            assert(fields.drop_first()[j] == fields[j + 1]);
        }
        lemma_lookup_none(fields.drop_first(), k);
    }
}

proof fn lemma_lookup_remove_other(fields: Seq<JsonField>, i: int, k: Chars)
    requires
        0 <= i < fields.len(),
        fields[i].key@ != k,
    ensures
        field_lookup(fields.remove(i), k) == field_lookup(fields, k),
    decreases i,
{
    if i > 0 {
        assert(fields.remove(i).drop_first() =~= fields.drop_first().remove(i - 1));
        assert(fields.remove(i)[0] == fields[0]);
        lemma_lookup_remove_other(fields.drop_first(), i - 1, k);
    } else {
        assert(fields.remove(0) =~= fields.drop_first());
    }
}

proof fn lemma_lookup_update(fields: Seq<JsonField>, i: int, f: JsonField, k: Chars)
    requires
        0 <= i < fields.len(),
        fields[i].key@ == f.key@,
        forall|j: int| 0 <= j < i ==> (#[trigger] fields[j]).key@ != f.key@,
    ensures
        field_lookup(fields.update(i, f), k) == if k == f.key@ { Some(f.value) } else { field_lookup(fields, k) },
    decreases i,
{
    if i > 0 {
        assert(fields.update(i, f).drop_first() =~= fields.drop_first().update(i - 1, f));
        assert(fields.update(i, f)[0] == fields[0]);
        assert(fields[0].key@ != f.key@);
        assert forall|j: int| 0 <= j < i - 1 implies (#[trigger] fields.drop_first()[j]).key@ != f.key@ by {
            assert(fields.drop_first()[j] == fields[j + 1]);
        }
        lemma_lookup_update(fields.drop_first(), i - 1, f, k);
    } else {
        assert(fields.update(0, f).drop_first() =~= fields.drop_first());
    }
}

proof fn lemma_lookup_push(fields: Seq<JsonField>, f: JsonField, k: Chars)
    requires
        forall|j: int| 0 <= j < fields.len() ==> (#[trigger] fields[j]).key@ != f.key@,
    ensures
        field_lookup(fields.push(f), k) == if k == f.key@ { Some(f.value) } else { field_lookup(fields, k) },
    decreases fields.len(),
{
    let p = fields.push(f);
    if fields.len() > 0 {
        assert(p.drop_first() =~= fields.drop_first().push(f));
        assert(p[0] == fields[0]);
        assert(fields[0].key@ != f.key@);
        assert forall|j: int| 0 <= j < fields.drop_first().len() implies (#[trigger] fields.drop_first()[j]).key@ != f.key@ by {
            assert(fields.drop_first()[j] == fields[j + 1]);
        }
        lemma_lookup_push(fields.drop_first(), f, k);
        if fields[0].key@ == k {
            assert(field_lookup(p, k) == Some(fields[0].value));
            assert(field_lookup(fields, k) == Some(fields[0].value));
        } else {
            assert(field_lookup(p, k) == field_lookup(p.drop_first(), k));
            assert(field_lookup(fields, k) == field_lookup(fields.drop_first(), k));
        }
    } else {
        assert(p.len() == 1);
        assert(p[0] == f);
        assert(p.drop_first() =~= Seq::<JsonField>::empty());
        assert(field_lookup(p.drop_first(), k) is None);
        assert(field_lookup(fields, k) is None);
    }
}

/// Sets a field: the first field with the key gets the value, or the field is
/// added (`Map::insert`).
pub fn set_field(fields: &mut Vec<JsonField>, key: &str, value: JsonValue)
    ensures
        forall|k: Chars| #[trigger] field_lookup(final(fields)@, k) == if k == key@ {
            Some(value)
        } else {
            field_lookup(old(fields)@, k)
        },
{
    let mut i: usize = 0;
    while i < fields.len()
        invariant
            i <= fields@.len(),
            fields@ == old(fields)@,
            forall|j: int| 0 <= j < i ==> (#[trigger] fields@[j]).key@ != key@,
        decreases fields@.len() - i,
    {
        if str_eq(fields[i].key.as_str(), key) {
            let f = JsonField { key: crate::text::copy_str(key), value };
            proof {
                assert forall|k: Chars| #[trigger] field_lookup(fields@.update(i as int, f), k) == if k == key@ {
                    Some(f.value)
                } else {
                    field_lookup(fields@, k)
                } by {
                    lemma_lookup_update(fields@, i as int, f, k);
                }
            }
            fields.set(i, f);
            return;
        }
        i += 1;
    }
    let f = JsonField { key: crate::text::copy_str(key), value };
    proof {
        assert forall|k: Chars| #[trigger] field_lookup(fields@.push(f), k) == if k == key@ {
            Some(f.value)
        } else {
            field_lookup(fields@, k)
        } by {
            lemma_lookup_push(fields@, f, k);
        }
    }
    fields.push(f);
}

/// Removes every field with the key (`Map::remove`).
pub fn remove_field(fields: &mut Vec<JsonField>, key: &str)
    ensures
        forall|k: Chars| #[trigger] field_lookup(final(fields)@, k) == if k == key@ {
            None
        } else {
            field_lookup(old(fields)@, k)
        },
{
    let mut i: usize = 0;
    while i < fields.len()
        invariant
            i <= fields@.len(),
            forall|j: int| 0 <= j < i ==> (#[trigger] fields@[j]).key@ != key@,
            forall|k: Chars| k != key@ ==> #[trigger] field_lookup(fields@, k) == field_lookup(old(fields)@, k),
        decreases fields@.len() - i,
    {
        if str_eq(fields[i].key.as_str(), key) {
            let ghost before = fields@;
            proof {
                assert forall|k: Chars| k != key@ implies #[trigger] field_lookup(before.remove(i as int), k) == field_lookup(before, k) by {
                    lemma_lookup_remove_other(before, i as int, k);
                }
            }
            fields.remove(i);
            assert forall|j: int| 0 <= j < i implies (#[trigger] fields@[j]).key@ != key@ by {
                assert(fields@[j] == before[j]);
            }
        } else {
            i += 1;
        }
    }
    proof {
        lemma_lookup_none(fields@, key@);
    }
}

} // verus!

verus! {

/// Sets a field to an array of strings, or removes it when there are none.
pub fn put_string_list(fields: &mut Vec<JsonField>, key: &str, items: &Vec<String>)
    ensures
        items@.len() == 0 ==> field_lookup(final(fields)@, key@) is None,
        items@.len() > 0 ==> field_lookup(final(fields)@, key@) is Some
            && str_items(field_lookup(final(fields)@, key@).unwrap()) == Some(crate::order::views(items@)),
        forall|k: Chars| k != key@ ==> #[trigger] field_lookup(final(fields)@, k) == field_lookup(old(fields)@, k),
{
    if items.len() == 0 {
        remove_field(fields, key);
    } else {
        let v = string_array(items);
        set_field(fields, key, v);
    }
}

/// Sets a field when a value is given.
pub fn put_optional(fields: &mut Vec<JsonField>, key: &str, value: Option<JsonValue>)
    ensures
        forall|k: Chars| #[trigger] field_lookup(final(fields)@, k) == match value {
            Some(v) => if k == key@ { Some(v) } else { field_lookup(old(fields)@, k) },
            None => field_lookup(old(fields)@, k),
        },
{
    match value {
        Some(v) => set_field(fields, key, v),
        None => {},
    }
}

} // verus!

verus! {

/// How `serde_json` writes one character inside a string: `"` and `\\`
/// escaped, the short escapes for backspace, tab, line feed, form feed and
/// carriage return, `\\u00XX` (lower-case hex) for the other control
/// characters below U+0020, every other character as it is.
pub open spec fn json_escape(c: char) -> Chars {
    let u = c as u32;
    if c == '"' {
        seq!['\\', '"']
    } else if c == '\\' {
        seq!['\\', '\\']
    } else if u == 0x08 {
        seq!['\\', 'b']
    } else if u == 0x09 {
        seq!['\\', 't']
    } else if u == 0x0a {
        seq!['\\', 'n']
    } else if u == 0x0c {
        seq!['\\', 'f']
    } else if u == 0x0d {
        seq!['\\', 'r']
    } else if u < 0x20 {
        seq!['\\', 'u', '0', '0', crate::index::symbols::hex_digit((u / 16) as u8), crate::index::symbols::hex_digit((u % 16) as u8)]
    } else {
        seq![c]
    }
}

/// The escaped characters of a string, in order.
pub open spec fn json_escaped(s: Chars) -> Chars
    decreases s.len(),
{
    if s.len() == 0 {
        Seq::empty()
    } else {
        json_escaped(s.drop_last()) + json_escape(s.last())
    }
}

/// A JSON string: the escaped characters between double quotes.
pub open spec fn json_quoted(s: Chars) -> Chars {
    seq!['"'] + json_escaped(s) + seq!['"']
}

/// The compact JSON array of a list of strings, as `serde_json` writes it:
/// `[`, the strings separated by `,`, `]`.
pub open spec fn json_string_list(items: Seq<Chars>) -> Chars {
    seq!['['] + crate::text::join(items.map_values(|x: Chars| json_quoted(x)), seq![',']) + seq![']']
}

/// `serde_json::to_string` of a list of strings. Serializing a sequence of
/// strings into a `Vec<u8>` cannot fail (no map keys, no failing
/// `Serialize` impl, no failing writer), and the text is the compact array
/// with `serde_json`'s string escapes (`format_escaped_str` in its `ser.rs`).
#[verifier::external_body]
fn json_list_text(items: &Vec<String>) -> (r: Option<String>)
    ensures
        crate::index::artifacts::opt_view(r) == Some(json_string_list(crate::order::views(items@))),
{
    serde_json::to_string(items).ok()
}

/// The JSON text of a list of strings (`[]` should serialization fail, which
/// it does not).
pub fn json_array_text(items: &Vec<String>) -> (s: String)
    ensures
        s@ == json_string_list(crate::order::views(items@)),
{
    match json_list_text(items) {
        Some(t) => t,
        None => {
            let mut s = String::new();
            crate::text::push_char(&mut s, '[');
            crate::text::push_char(&mut s, ']');
            s
        },
    }
}

} // verus!
