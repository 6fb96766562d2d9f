//! The trusted boundary to the outside TOML parser: the declarations that
//! hand its output over as plain document values.

use vstd::prelude::*;

use crate::format::toml::{toml_table_of, Datum};

verus! {

#[verifier::external_type_specification]
#[verifier::external_body]
pub struct ExTomlValue(::toml::Value);

/// Relies on ::toml::Value: each variant carries the parsed scalar — a float
/// as its bits, a timestamp through its text — or the nested structure,
/// mapped one for one onto the document model. It exists as the recursive
/// conversion step of `parse_toml` and has no contract of its own.
#[verifier::external_body]
fn datum_of_toml(v: ::toml::Value) -> Datum {
    match v {
        ::toml::Value::String(s) => Datum::Text(s),
        ::toml::Value::Integer(i) => Datum::Integer(i),
        ::toml::Value::Float(f) => Datum::Float(f.to_bits()),
        ::toml::Value::Boolean(b) => Datum::Boolean(b),
        ::toml::Value::Datetime(d) => Datum::Datetime(d.to_string()),
        ::toml::Value::Array(a) => Datum::Array(a.into_iter().map(datum_of_toml).collect()),
        ::toml::Value::Table(t) => Datum::Table(
            t.into_iter().map(|(k, w)| (k, datum_of_toml(w))).collect(),
        ),
    }
}

/// Relies on `str::parse::<::toml::Table>`: the parse depends on the text
/// alone; a parsed table is handed over entry by entry, a failure as the
/// parser's diagnostic messages.
#[verifier::external_body]
pub(crate) fn parse_toml(content: &str) -> (r: Result<Vec<(String, Datum)>, Vec<String>>)
    ensures
        match r {
            Ok(t) => toml_table_of(content@) matches Ok(tv) && t.deep_view() == tv,
            Err(es) => toml_table_of(content@) matches Err(ev) && es.deep_view() == ev,
        },
{
    match content.parse::<::toml::Table>() {
        Ok(table) => Ok(table.into_iter().map(|(k, v)| (k, datum_of_toml(v))).collect()),
        Err(error) => Err(vec![error.to_string()]),
    }
}

} // verus!
