//! Trusted access to `serde_json` values. The search tools emit JSON; these
//! declarations let verified code parse a line into an opaque value and read
//! its fields. Nothing is assumed about what a given document contains: the
//! callers handle every outcome.

use vstd::prelude::*;

verus! {

#[verifier::external_type_specification]
#[verifier::external_body]
pub struct ExValue(serde_json::Value);

/// Relies on `serde_json::from_str::<Value>`: parses one JSON document,
/// `None` when the text is not valid JSON.
#[verifier::external_body]
pub fn parse_json(s: &str) -> (r: Option<serde_json::Value>)
{
    serde_json::from_str::<serde_json::Value>(s).ok()
}

/// Relies on `serde_json::Value::get`: the member of an object under a key,
/// `None` for other value kinds or a missing key.
#[verifier::external_body]
pub fn value_get<'a>(v: &'a serde_json::Value, key: &str) -> (r: Option<&'a serde_json::Value>)
{
    v.get(key)
}

/// Relies on `serde_json::Value::as_str`: the text of a JSON string value.
#[verifier::external_body]
pub fn value_as_str<'a>(v: &'a serde_json::Value) -> (r: Option<&'a str>)
{
    v.as_str()
}

/// Relies on `serde_json::Value::as_u64`: a JSON number as an unsigned
/// integer when exactly representable.
#[verifier::external_body]
pub fn value_as_u64(v: &serde_json::Value) -> (r: Option<u64>)
{
    v.as_u64()
}

/// Relies on `serde_json::Value::as_array`: the elements of a JSON array.
#[verifier::external_body]
pub fn value_as_array<'a>(v: &'a serde_json::Value) -> (r: Option<&'a Vec<serde_json::Value>>)
{
    v.as_array()
}

/// What one line of ripgrep-style JSON output denotes, as serde_json reads
/// it: the path text, line number and matched text of a complete record of
/// type `match`; `None` for any other line. A function of the line alone.
pub uninterp spec fn rg_match_of(line: Seq<char>) -> Option<(Seq<char>, u64, Seq<char>)>;

/// Relies on `serde_json::from_str::<Value>` and the `Value` accessors
/// `get`, `as_str` and `as_u64`: extracts the `data.path.text`,
/// `data.line_number` and `data.lines.text` fields of a record whose `type`
/// is `match`. The result depends on the line alone; it is named by
/// `rg_match_of`.
#[verifier::external_body]
pub fn rg_match_fields(line: &str) -> (r: Option<(String, u64, String)>)
    ensures
        r matches Option::Some(t) ==> rg_match_of(line@) == Option::Some((t.0@, t.1, t.2@)),
        r is None ==> rg_match_of(line@) is None,
{
    let v: serde_json::Value = serde_json::from_str(line).ok()?;
    if v.get("type")?.as_str()? != "match" {
        return None;
    }
    let d = v.get("data")?;
    Some((
        d.get("path")?.get("text")?.as_str()?.to_string(),
        d.get("line_number")?.as_u64()?,
        d.get("lines")?.get("text")?.as_str()?.to_string(),
    ))
}

/// What one structural-match JSON object holds, as serde_json reads it:
/// the `path` text and the zero-based `range.start.line`; `None` when a
/// field is missing or of the wrong kind. A function of the value alone.
pub uninterp spec fn ast_fields_of(v: serde_json::Value) -> Option<(Seq<char>, u64)>;

/// Relies on the `serde_json::Value` accessors `get`, `as_str` and
/// `as_u64`: extracts the `path` and `range.start.line` fields of one
/// structural match object. The result is named by `ast_fields_of`.
#[verifier::external_body]
pub fn ast_value_fields(v: &serde_json::Value) -> (r: Option<(String, u64)>)
    ensures
        r matches Option::Some(t) ==> ast_fields_of(*v) == Option::Some((t.0@, t.1)),
        r is None ==> ast_fields_of(*v) is None,
{
    Some((
        v.get("path")?.as_str()?.to_string(),
        v.get("range")?.get("start")?.get("line")?.as_u64()?,
    ))
}

} // verus!
