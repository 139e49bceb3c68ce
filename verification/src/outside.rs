//! What other crates and the standard library compute for this one. Each
//! function here makes one outside call and hands plain values in and out;
//! what its contract says of the outside code is believed, not proved.

use serde_yaml::{Number as RawNumber, Value as RawYaml};
use vstd::prelude::*;
use vstd::utf8::{decode_utf8, valid_utf8};

use crate::dates;
use crate::value::Float;
use crate::yaml::{Yaml, YamlData, YamlKey, YamlNumber};

verus! {

/// The year, month and day that `chrono::NaiveDate::parse_from_str` reads
/// from a text in the format `%Y-%m-%d`.
pub uninterp spec fn iso_date(s: Seq<char>) -> Option<(i32, u32, u32)>;

/// `chrono::NaiveDate::parse_from_str` in the format `%Y-%m-%d`. What it
/// reads depends on the text alone, and is a date that exists.
#[verifier::external_body]
pub(crate) fn read_date(s: &str) -> (r: Option<(i32, u32, u32)>)
    ensures
        r == iso_date(s@),
        r matches Some(d) ==> dates::valid_date(d.0, d.1, d.2),
{
    chrono::NaiveDate::parse_from_str(s, "%Y-%m-%d").ok().map(
        |d| (chrono::Datelike::year(&d), chrono::Datelike::month(&d), chrono::Datelike::day(&d)),
    )
}

/// `chrono::NaiveDate::format` in the format `%Y-%m-%d`: the year in at least
/// four digits, with its sign where it lies outside 0 to 9999, and the month
/// and the day in two.
#[verifier::external_body]
pub(crate) fn write_date(year: i32, month: u32, day: u32) -> (r: String)
    requires
        dates::valid_date(year, month, day),
    ensures
        r@ == dates::date_text(year, month, day),
{
    chrono::NaiveDate::from_ymd_opt(year, month, day).unwrap().format("%Y-%m-%d").to_string()
}

/// The Unix timestamp, nanoseconds into the second, and seconds east of UTC
/// that `chrono::DateTime::parse_from_rfc3339` reads from a text.
pub uninterp spec fn rfc3339(s: Seq<char>) -> Option<(i64, u32, i32)>;

/// `chrono::DateTime::parse_from_rfc3339`. What it reads depends on the text
/// alone, is an instant that can be held, and has an offset of less than a
/// day.
#[verifier::external_body]
pub(crate) fn read_rfc3339(s: &str) -> (r: Option<(i64, u32, i32)>)
    ensures
        r == rfc3339(s@),
        r matches Some(t) ==> dates::valid_instant(t.0, t.1) && -86400 < t.2 < 86400,
{
    chrono::DateTime::parse_from_rfc3339(s).ok().map(
        |t| (t.timestamp(), t.timestamp_subsec_nanos(), t.offset().local_minus_utc()),
    )
}

/// What `chrono::DateTime::<Utc>::to_rfc3339_opts` writes for an instant, in
/// whole seconds and with a `Z`.
pub uninterp spec fn utc_text(secs: i64, nanos: u32) -> Seq<char>;

/// `chrono::DateTime::<Utc>::to_rfc3339_opts` in whole seconds and with a `Z`.
/// What it writes depends on the instant alone.
#[verifier::external_body]
pub(crate) fn write_utc(secs: i64, nanos: u32) -> (r: String)
    requires
        dates::valid_instant(secs, nanos),
    ensures
        r@ == utc_text(secs, nanos),
{
    chrono::DateTime::from_timestamp(secs, nanos).unwrap().to_rfc3339_opts(
        chrono::SecondsFormat::Secs,
        true,
    )
}

/// What the `Debug` of `chrono::DateTime::<FixedOffset>` writes for an instant
/// and an offset.
pub uninterp spec fn offset_text(secs: i64, nanos: u32, offset: i32) -> Seq<char>;

/// The `Debug` of `chrono::DateTime::<FixedOffset>`. What it writes depends on
/// the instant and the offset alone.
#[verifier::external_body]
pub(crate) fn write_offset(secs: i64, nanos: u32, offset: i32) -> (r: String)
    requires
        dates::valid_instant(secs, nanos),
        -86400 < offset < 86400,
    ensures
        r@ == offset_text(secs, nanos, offset),
{
    let zone = chrono::FixedOffset::east_opt(offset).unwrap();
    format!("{:?}", chrono::DateTime::from_timestamp(secs, nanos).unwrap().with_timezone(&zone))
}

/// What the `Debug` of `str` writes: the text in double quotes, escaped.
pub uninterp spec fn quoted(s: Seq<char>) -> Seq<char>;

/// The `Debug` of `str`. What it writes depends on the text alone.
#[verifier::external_body]
pub(crate) fn quote(s: &str) -> (r: String)
    ensures
        r@ == quoted(s@),
{
    format!("{s:?}")
}

/// `String::from_utf8`: the text that bytes encode, if they are UTF-8.
#[verifier::external_body]
pub(crate) fn text_of(bytes: &[u8]) -> (r: Option<String>)
    ensures
        r is Some <==> valid_utf8(bytes@),
        r matches Some(s) ==> s@ == decode_utf8(bytes@),
{
    String::from_utf8(bytes.to_vec()).ok()
}

/// What `String::from_utf8_lossy` makes of bytes that need not be UTF-8.
pub uninterp spec fn lossy(bytes: Seq<u8>) -> Seq<char>;

/// `String::from_utf8_lossy`. The text depends on the bytes alone, and is what
/// they encode where they are UTF-8.
#[verifier::external_body]
pub(crate) fn lossy_text(bytes: &[u8]) -> (r: String)
    ensures
        r@ == lossy(bytes@),
        valid_utf8(bytes@) ==> r@ == decode_utf8(bytes@),
{
    String::from_utf8_lossy(bytes).into_owned()
}

/// A YAML value as `serde_yaml` holds it.
#[verifier::external_type_specification]
#[verifier::external_body]
pub struct ExYamlValue(RawYaml);

/// A YAML number as `serde_yaml` holds it.
#[verifier::external_type_specification]
#[verifier::external_body]
pub struct ExYamlNumber(RawNumber);

/// The plain form of a `serde_yaml::Number`.
#[verifier::external_body]
fn number_of(n: RawNumber) -> YamlNumber {
    YamlNumber {
        int: n.as_i64(),
        float: n.as_f64().map(
            |f| Float { bits: f.to_bits(), text: f.to_string(), debug: format!("{f:?}") },
        ),
        text: n.to_string(),
    }
}

/// The plain form of a `serde_yaml::Value` that stands as a key. One that is
/// no scalar is written back with `serde_yaml::to_string`.
#[verifier::external_body]
fn key_of(k: RawYaml) -> YamlKey {
    match k {
        RawYaml::Null => YamlKey::Null,
        RawYaml::Bool(b) => YamlKey::Bool(b),
        RawYaml::Number(n) => YamlKey::Number(number_of(n)),
        RawYaml::String(s) => YamlKey::String(s),
        other => YamlKey::Other(serde_yaml::to_string(&other).unwrap_or_default()),
    }
}

/// The plain form of a `serde_yaml::Value`.
#[verifier::external_body]
fn yaml_of(v: RawYaml) -> Yaml {
    match v {
        RawYaml::Null => Yaml::Null,
        RawYaml::Bool(b) => Yaml::Bool(b),
        RawYaml::Number(n) => Yaml::Number(number_of(n)),
        RawYaml::String(s) => Yaml::String(s),
        RawYaml::Sequence(s) => Yaml::Sequence(s.into_iter().map(yaml_of).collect()),
        RawYaml::Mapping(m) => Yaml::Mapping(
            m.into_iter().map(|(k, v)| (key_of(k), yaml_of(v))).collect(),
        ),
        RawYaml::Tagged(t) => Yaml::Tagged(Box::new(yaml_of(t.value))),
    }
}

/// The document that `serde_yaml::from_str` reads from a text, or what its
/// error says.
pub uninterp spec fn yaml(s: Seq<char>) -> Result<YamlData, Seq<char>>;

/// `serde_yaml::from_str` to a `serde_yaml::Value`, which is handed on in
/// plain form; an error is handed on as its text. Both depend on the text
/// alone.
#[verifier::external_body]
pub(crate) fn read_yaml(s: &str) -> (r: Result<Yaml, String>)
    ensures
        match r {
            Ok(doc) => yaml(s@) == Ok::<YamlData, Seq<char>>(doc@),
            Err(e) => yaml(s@) == Err::<YamlData, Seq<char>>(e@),
        },
{
    serde_yaml::from_str(s).map(yaml_of).map_err(|e| e.to_string())
}

/// What `blake3::hash` makes of bytes, in hexadecimal digits.
pub uninterp spec fn blake3_hex(bytes: Seq<u8>) -> Seq<char>;

/// `blake3::hash`, written with `to_hex`: 64 digits out of `0` to `9` and `a`
/// to `f`, which depend on the bytes alone.
#[verifier::external_body]
pub(crate) fn hash_hex(bytes: &[u8]) -> (r: String)
    ensures
        r@ == blake3_hex(bytes@),
        r@.len() == 64,
        forall|i: int| 0 <= i < 64 ==> '0' <= #[trigger] r@[i] <= '9' || 'a' <= r@[i] <= 'f',
{
    blake3::hash(bytes).to_hex().to_string()
}

/// What the error of `regex::Regex::new` says of a pattern that it refuses.
pub uninterp spec fn regex_failure(pattern: Seq<char>) -> Option<Seq<char>>;

/// `regex::Regex::new`, tried for its error alone. Whether it refuses a
/// pattern, and what its error says, depends on the pattern alone.
#[verifier::external_body]
pub(crate) fn regex_error(pattern: &str) -> (r: Option<String>)
    ensures
        r is Some <==> regex_failure(pattern@) is Some,
        r matches Some(e) ==> regex_failure(pattern@) == Some(e@),
{
    regex::Regex::new(pattern).err().map(|e| e.to_string())
}

/// Whether `regex::Regex::is_match` finds a pattern in a text.
pub uninterp spec fn regex_found(pattern: Seq<char>, s: Seq<char>) -> bool;

/// `regex::Regex::is_match` of a pattern that `regex::Regex::new` takes. What
/// it finds depends on the pattern and the text alone; a pattern that is
/// refused is found nowhere.
#[verifier::external_body]
pub(crate) fn regex_is_match(pattern: &str, s: &str) -> (r: bool)
    ensures
        r == regex_found(pattern@, s@),
        regex_failure(pattern@) is Some ==> !r,
{
    regex::Regex::new(pattern).is_ok_and(|re| re.is_match(s))
}

/// `opentelemetry_semantic_conventions::resource::SERVICE_NAME`: the key
/// `service.name`.
#[verifier::external_body]
pub(crate) fn service_name_key() -> (r: String)
    ensures
        r@ == "service.name"@,
{
    opentelemetry_semantic_conventions::resource::SERVICE_NAME.to_string()
}

/// `opentelemetry_semantic_conventions::resource::SERVICE_VERSION`: the key
/// `service.version`.
#[verifier::external_body]
pub(crate) fn service_version_key() -> (r: String)
    ensures
        r@ == "service.version"@,
{
    opentelemetry_semantic_conventions::resource::SERVICE_VERSION.to_string()
}

}
