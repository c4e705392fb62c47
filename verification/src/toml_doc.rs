//! TOML documents, read through the `toml` crate into a value of this crate.

use vstd::prelude::*;

use crate::text::str_eq;

verus! {

/// A TOML value, as far as this crate reads one.
#[derive(Debug)]
pub enum TomlValue {
    Str(String),
    Int(i64),
    Bool(bool),
    Array(Vec<TomlValue>),
    /// A table's entries, each key once.
    Table(Vec<(String, TomlValue)>),
    /// A float or a date-time: no field read here takes one.
    Other,
}

#[verifier::external_type_specification]
#[verifier::external_body]
pub struct ExTomlValue(toml::Value);

/// What the `toml` crate parses `text` into: the document's top-level
/// table, or the parser's error message.
pub uninterp spec fn toml_document(text: Seq<char>) -> Result<TomlValue, Seq<char>>;

/// Moves a `toml::Value` into a [`TomlValue`], variant by variant.
#[verifier::external_body]
fn from_toml_value(v: toml::Value) -> TomlValue {
    match v {
        toml::Value::String(s) => TomlValue::Str(s),
        toml::Value::Integer(i) => TomlValue::Int(i),
        toml::Value::Boolean(b) => TomlValue::Bool(b),
        toml::Value::Array(a) => TomlValue::Array(a.into_iter().map(from_toml_value).collect()),
        toml::Value::Table(t) => TomlValue::Table(
            t.into_iter().map(|(k, x)| (k, from_toml_value(x))).collect(),
        ),
        toml::Value::Float(_) => TomlValue::Other,
        toml::Value::Datetime(_) => TomlValue::Other,
    }
}

/// Parses a TOML document with `toml::from_str::<toml::Value>`; a parse
/// error becomes its message.
#[verifier::external_body]
pub fn parse_toml(text: &str) -> (r: Result<TomlValue, String>)
    ensures
        match (r, toml_document(text@)) {
            (Ok(v), Ok(w)) => v == w,
            (Err(e), Err(m)) => e@ == m,
            _ => false,
        },
{
    match toml::from_str::<toml::Value>(text) {
        Ok(v) => Ok(from_toml_value(v)),
        Err(e) => Err(e.to_string()),
    }
}

/// Index of the first entry whose key is `key`.
pub open spec fn entry_index(entries: Seq<(String, TomlValue)>, key: Seq<char>) -> Option<int> {
    if exists|i: int| 0 <= i < entries.len() && entries[i].0@ == key {
        Some(
            choose|i: int|
                0 <= i < entries.len() && entries[i].0@ == key && forall|k: int|
                    0 <= k < i ==> entries[k].0@ != key,
        )
    } else {
        None
    }
}

/// The value under `key` in a table's entries.
pub open spec fn table_get(entries: Seq<(String, TomlValue)>, key: Seq<char>) -> Option<TomlValue> {
    match entry_index(entries, key) {
        Some(i) => Some(entries[i].1),
        None => None,
    }
}

/// Looks `key` up among a table's entries.
pub fn get_entry<'a>(entries: &'a Vec<(String, TomlValue)>, key: &str) -> (r: Option<&'a TomlValue>)
    ensures
        match r {
            Some(v) => table_get(entries@, key@) == Some(*v),
            None => table_get(entries@, key@) is None,
        },
{
    let mut i: usize = 0;
    while i < entries.len()
        invariant
            i <= entries@.len(),
            forall|k: int| 0 <= k < i ==> entries@[k].0@ != key@,
        decreases entries@.len() - i,
    {
        if str_eq(entries[i].0.as_str(), key) {
            proof {
                let w = choose|j: int|
                    0 <= j < entries@.len() && entries@[j].0@ == key@ && forall|k: int|
                        0 <= k < j ==> entries@[k].0@ != key@;
                assert(0 <= i < entries@.len() && entries@[i as int].0@ == key@);
                if w < i {
                } else if w > i {
                }
            }
            return Some(&entries[i].1);
        }
        i += 1;
    }
    None
}

} // verus!
