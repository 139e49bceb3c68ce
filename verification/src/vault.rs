//! The vault scanner: from the bytes of Markdown files to notes.
//!
//! The walk itself and the reading of files happen outside; what comes of
//! them is handed in. Files that are not Markdown and entries under a
//! dot-prefixed name are skipped. A file that cannot be turned into a note is
//! reported beside the notes, and never stops the scan.

use vstd::prelude::*;
use vstd::utf8::{decode_utf8, encode_utf8, valid_utf8};

use crate::dates::{Date, DateTime, DateTimeData, Instant};
use crate::lists;
use crate::names;
use crate::numbers;
use crate::outside;
use crate::paths;
use crate::sorted::SortedMap;
use crate::store;
use crate::text;
use crate::value;
use crate::value::{Data, Frontmatter, Value};
use crate::yaml;
use crate::yaml::{KeyData, NumberData, Yaml, YamlData, YamlKey, YamlNumber};

verus! {

/// One scanned note. The raw bytes stay with it, so that they can be served
/// exactly as they were hashed.
#[derive(Debug)]
pub struct Note {
    /// Path relative to the vault root, with forward slashes.
    pub path: String,
    pub frontmatter: Frontmatter,
    pub body: String,
    pub raw_bytes: Vec<u8>,
    pub last_modified: Instant,
    pub etag: String,
    pub size: u64,
}

/// What a [`Note`] says.
#[verifier::ext_equal]
pub struct NoteData {
    pub path: Seq<char>,
    pub frontmatter: Map<Seq<char>, Data>,
    pub body: Seq<char>,
    pub raw_bytes: Seq<u8>,
    pub last_modified: (i64, u32),
    pub etag: Seq<char>,
    pub size: u64,
}

impl View for Note {
    type V = NoteData;

    open spec fn view(&self) -> NoteData {
        NoteData {
            path: self.path@,
            frontmatter: value::table_data(self.frontmatter@),
            body: self.body@,
            raw_bytes: self.raw_bytes@,
            last_modified: self.last_modified@,
            etag: self.etag@,
            size: self.size,
        }
    }
}

impl Clone for Note {
    fn clone(&self) -> (r: Self)
        ensures
            r@ == self@,
    {
        Note {
            path: self.path.clone(),
            frontmatter: value::copy_map(&self.frontmatter),
            body: self.body.clone(),
            raw_bytes: paths::copy_bytes(self.raw_bytes.as_slice()),
            last_modified: self.last_modified,
            etag: self.etag.clone(),
            size: self.size,
        }
    }
}

/// Why a file could not be turned into a note.
#[derive(Debug, PartialEq)]
pub enum ScanIssueKind {
    /// Reading failed; `not_found` if the file is not there.
    Io { message: String, not_found: bool },
    NonUtf8Path,
    FrontmatterParse(String),
    NonUtf8Body,
}

/// What a [`ScanIssueKind`] says.
pub enum IssueKindData {
    Io { message: Seq<char>, not_found: bool },
    NonUtf8Path,
    FrontmatterParse(Seq<char>),
    NonUtf8Body,
}

impl View for ScanIssueKind {
    type V = IssueKindData;

    open spec fn view(&self) -> IssueKindData {
        match self {
            ScanIssueKind::Io { message, not_found } => IssueKindData::Io {
                message: message@,
                not_found: *not_found,
            },
            ScanIssueKind::NonUtf8Path => IssueKindData::NonUtf8Path,
            ScanIssueKind::FrontmatterParse(e) => IssueKindData::FrontmatterParse(e@),
            ScanIssueKind::NonUtf8Body => IssueKindData::NonUtf8Body,
        }
    }
}

/// How an issue reads.
pub open spec fn issue_text(kind: IssueKindData) -> Seq<char> {
    match kind {
        IssueKindData::Io { message, not_found } => "io: "@ + message,
        IssueKindData::NonUtf8Path => "path is not valid UTF-8"@,
        IssueKindData::FrontmatterParse(e) => "frontmatter YAML parse failed: "@ + e,
        IssueKindData::NonUtf8Body => "file body is not valid UTF-8"@,
    }
}

impl ScanIssueKind {
    /// How the issue reads.
    pub fn message(&self) -> (r: String)
        ensures
            r@ == issue_text(self@),
    {
        match self {
            ScanIssueKind::Io { message, not_found } => {
                let mut out = text::copy_of("io: ");
                out.append(message.as_str());
                out
            },
            ScanIssueKind::NonUtf8Path => text::copy_of("path is not valid UTF-8"),
            ScanIssueKind::FrontmatterParse(e) => {
                let mut out = text::copy_of("frontmatter YAML parse failed: ");
                out.append(e.as_str());
                out
            },
            ScanIssueKind::NonUtf8Body => text::copy_of("file body is not valid UTF-8"),
        }
    }
}

/// A file that could not be turned into a note, and why.
#[derive(Debug, PartialEq)]
pub struct ScanIssue {
    pub path: Vec<u8>,
    pub kind: ScanIssueKind,
}

/// What a [`ScanIssue`] says.
#[verifier::ext_equal]
pub struct IssueData {
    pub path: Seq<u8>,
    pub kind: IssueKindData,
}

impl View for ScanIssue {
    type V = IssueData;

    open spec fn view(&self) -> IssueData {
        IssueData { path: self.path@, kind: self.kind@ }
    }
}

/// What is odd about a note that was kept all the same.
#[derive(Debug, PartialEq, Eq)]
pub enum ScanWarningKind {
    /// The frontmatter is valid YAML and no mapping; the note is kept with an
    /// empty frontmatter.
    FrontmatterNotMapping,
    /// The frontmatter has a value under this key whose kind does not go with
    /// the kind that an earlier note has there.
    TypeDrift(String),
}

/// What a [`ScanWarningKind`] says.
#[verifier::ext_equal]
pub enum WarningKindData {
    FrontmatterNotMapping,
    TypeDrift(Seq<char>),
}

impl View for ScanWarningKind {
    type V = WarningKindData;

    open spec fn view(&self) -> WarningKindData {
        match self {
            ScanWarningKind::FrontmatterNotMapping => WarningKindData::FrontmatterNotMapping,
            ScanWarningKind::TypeDrift(key) => WarningKindData::TypeDrift(key@),
        }
    }
}

impl Clone for ScanWarningKind {
    fn clone(&self) -> (r: Self)
        ensures
            r@ == self@,
    {
        match self {
            ScanWarningKind::FrontmatterNotMapping => ScanWarningKind::FrontmatterNotMapping,
            ScanWarningKind::TypeDrift(key) => ScanWarningKind::TypeDrift(key.clone()),
        }
    }
}

/// What a warning that may be there says.
pub open spec fn odd_data(w: Option<ScanWarningKind>) -> Option<WarningKindData> {
    match w {
        Some(kind) => Some(kind@),
        None => None,
    }
}

/// How a warning reads.
pub open spec fn warning_text(kind: WarningKindData) -> Seq<char> {
    match kind {
        WarningKindData::FrontmatterNotMapping => "frontmatter root is not a YAML mapping"@,
        WarningKindData::TypeDrift(key) => "frontmatter key `"@ + key
            + "` has incompatible types across notes"@,
    }
}

impl ScanWarningKind {
    /// How the warning reads.
    pub fn message(&self) -> (r: String)
        ensures
            r@ == warning_text(self@),
    {
        match self {
            ScanWarningKind::FrontmatterNotMapping => text::copy_of(
                "frontmatter root is not a YAML mapping",
            ),
            ScanWarningKind::TypeDrift(key) => {
                let mut out = text::concat("frontmatter key `", key.as_str());
                out.append("` has incompatible types across notes");
                out
            },
        }
    }
}

/// A note that was kept although something is odd about it.
#[derive(Debug, PartialEq)]
pub struct ScanWarning {
    pub path: Vec<u8>,
    pub kind: ScanWarningKind,
}

/// What a [`ScanWarning`] says.
#[verifier::ext_equal]
pub struct WarningData {
    pub path: Seq<u8>,
    pub kind: WarningKindData,
}

impl View for ScanWarning {
    type V = WarningData;

    open spec fn view(&self) -> WarningData {
        WarningData { path: self.path@, kind: self.kind@ }
    }
}

/// What a scan found: notes, files that could not be turned into notes, and
/// notes that something is odd about.
#[derive(Debug)]
pub struct ScanResult {
    pub notes: Vec<Note>,
    pub issues: Vec<ScanIssue>,
    pub warnings: Vec<ScanWarning>,
}

/// What a [`ScanResult`] says.
#[verifier::ext_equal]
pub struct ScanData {
    pub notes: Seq<NoteData>,
    pub issues: Seq<IssueData>,
    pub warnings: Seq<WarningData>,
}

/// What a list of notes says.
pub open spec fn notes_data(notes: Seq<Note>) -> Seq<NoteData> {
    notes.map_values(|n: Note| n@)
}

/// What a list of issues says.
pub open spec fn issues_data(issues: Seq<ScanIssue>) -> Seq<IssueData> {
    issues.map_values(|i: ScanIssue| i@)
}

/// What a list of warnings says.
pub open spec fn warnings_data(warnings: Seq<ScanWarning>) -> Seq<WarningData> {
    warnings.map_values(|w: ScanWarning| w@)
}

impl View for ScanResult {
    type V = ScanData;

    open spec fn view(&self) -> ScanData {
        ScanData {
            notes: notes_data(self.notes@),
            issues: issues_data(self.issues@),
            warnings: warnings_data(self.warnings@),
        }
    }
}

/// Whether a line that is exactly `---` starts at `p`.
pub open spec fn closes_at(s: Seq<char>, p: int) -> bool {
    &&& 0 <= p && p + 3 <= s.len()
    &&& p == 0 || s[p - 1] == '\n'
    &&& s[p] == '-' && s[p + 1] == '-' && s[p + 2] == '-'
    &&& p + 3 == s.len() || s[p + 3] == '\n'
}

/// Where the first line from `from` on that is exactly `---` starts.
pub open spec fn first_close(s: Seq<char>, from: int) -> Option<int>
    decreases s.len() - from,
{
    if from >= s.len() {
        None
    } else if closes_at(s, from) {
        Some(from)
    } else {
        first_close(s, from + 1)
    }
}

/// A Markdown source in two: the frontmatter between a first line `---` and
/// the next line that is exactly `---`, and the body after it. A source
/// without such a block is all body.
pub open spec fn split_source(src: Seq<char>) -> (Seq<char>, Seq<char>) {
    if text::has_prefix(src, "---\n"@) {
        let s = src.skip(4);
        match first_close(s, 0) {
            Some(p) => (
                s.take(p),
                if p + 3 == s.len() {
                    seq![]
                } else {
                    s.skip(p + 4)
                },
            ),
            None => (seq![], src),
        }
    } else {
        (seq![], src)
    }
}

/// Splits a Markdown source into its frontmatter and its body. The closing
/// `---` may be the last line, with or without a line break after it. An
/// opening marker that nothing closes leaves the whole source as body, so that
/// nothing is lost.
pub fn split_frontmatter(src: &str) -> (r: (String, String))
    ensures
        (r.0@, r.1@) == split_source(src@),
{
    let x = text::chars_of(src);
    let n: usize = x.len();
    proof {
        reveal_strlit("---\n");
        if text::has_prefix(src@, "---\n"@) {
            let t = src@.take(4);
            assert(t[0] == '-' && t[1] == '-' && t[2] == '-' && t[3] == '\n');
        }
    }
    if n < 4 || x[0] != '-' || x[1] != '-' || x[2] != '-' || x[3] != '\n' {
        return (String::new(), text::copy_of(src));
    }
    assert(src@.take(4) =~= "---\n"@);
    let ghost s = src@.skip(4);
    let mut i: usize = 4;
    while i < n
        invariant
            4 <= i <= n == x@.len(),
            x@ == src@,
            s == src@.skip(4),
            text::has_prefix(src@, "---\n"@),
            first_close(s, 0) == first_close(s, i - 4),
            x@[3] == '\n',
        decreases n - i,
    {
        let here = n - i >= 3 && x[i - 1] == '\n' && x[i] == '-' && x[i + 1] == '-' && x[i + 2]
            == '-' && (n - i == 3 || x[i + 3] == '\n');
        proof {
            if n - i >= 3 {
                assert(s[i - 4] == x@[i as int]);
                assert(s[i - 3] == x@[i + 1]);
                assert(s[i - 2] == x@[i + 2]);
                if i > 4 {
                    assert(s[i - 5] == x@[i - 1]);
                }
                if n - i > 3 {
                    assert(s[i - 1] == x@[i + 3]);
                }
            }
            assert(here == closes_at(s, i - 4));
        }
        if here {
            let front = text::string_of(&x, 4, i);
            assert(front@ =~= s.take(i - 4));
            let body = if n - i == 3 {
                String::new()
            } else {
                text::string_of(&x, i + 4, n)
            };
            proof {
                if n - i == 3 {
                    assert(body@ =~= seq![]);
                } else {
                    assert(body@ =~= s.skip(i - 4 + 4));
                }
            }
            return (front, body);
        }
        i += 1;
    }
    (String::new(), text::copy_of(src))
}

/// Nothing is lost in the split: put together again with its markers, the
/// source is what it was.
pub proof fn split_keeps_source(src: Seq<char>)
    ensures
        ({
            let (front, body) = split_source(src);
            ||| front.len() == 0 && body == src
            ||| src == "---\n"@ + front + "---"@ && body.len() == 0
            ||| src == "---\n"@ + front + "---\n"@ + body
        }),
{
    reveal_strlit("---\n");
    reveal_strlit("---");
    if text::has_prefix(src, "---\n"@) {
        let s = src.skip(4);
        first_close_closes(s, 0);
        match first_close(s, 0) {
            Some(p) => {
                assert(src =~= "---\n"@ + s);
                if p + 3 == s.len() {
                    assert(s =~= s.take(p) + "---"@);
                    assert(src =~= "---\n"@ + s.take(p) + "---"@);
                } else {
                    assert(s =~= s.take(p) + "---\n"@ + s.skip(p + 4));
                    assert(src =~= "---\n"@ + s.take(p) + "---\n"@ + s.skip(p + 4));
                }
            },
            None => {},
        }
    }
}

proof fn first_close_closes(s: Seq<char>, from: int)
    requires
        0 <= from,
    ensures
        first_close(s, from) matches Some(p) ==> closes_at(s, p) && from <= p,
    decreases s.len() - from,
{
    if from < s.len() && !closes_at(s, from) {
        first_close_closes(s, from + 1);
    }
}

/// A YAML text with the dates in it told apart: a text that reads as a date
/// is one, then one that reads as a date-time is one.
pub open spec fn coerced_text(s: Seq<char>) -> Data {
    match outside::iso_date(s) {
        Some((y, m, d)) => Data::Date(y, m, d),
        None => match outside::rfc3339(s) {
            Some((secs, nanos, offset)) => Data::DateTime(
                DateTimeData { at: (secs, nanos), offset },
            ),
            None => Data::Text(s),
        },
    }
}

/// A YAML number: an integer where it fits, else a double.
pub open spec fn coerced_number(n: NumberData) -> Data {
    match n.int {
        Some(i) => Data::Int(i),
        None => match n.float {
            Some(f) => Data::Float(f),
            None => Data::Text(n.text),
        },
    }
}

/// The text that a YAML key stands for.
pub open spec fn key_text(k: KeyData) -> Seq<char> {
    match k {
        KeyData::Null => "null"@,
        KeyData::Bool(b) => numbers::bool_text(b),
        KeyData::Number(n) => n.text,
        KeyData::Text(s) => s,
        KeyData::Other(s) => text::trimmed(s),
    }
}

/// A YAML tree as a value: tags are dropped, and the entries of a mapping are
/// taken in order, so that the last of two equal keys stands.
pub open spec fn coerced(y: YamlData) -> Data
    decreases y,
{
    match y {
        YamlData::Null => Data::Null,
        YamlData::Bool(b) => Data::Bool(b),
        YamlData::Number(n) => coerced_number(n),
        YamlData::Text(s) => coerced_text(s),
        YamlData::List(items) => Data::List(
            Seq::new(
                items.len(),
                |i: int|
                    if 0 <= i < items.len() {
                        coerced(items[i])
                    } else {
                        Data::Null
                    },
            ),
        ),
        YamlData::Pairs(pairs) => Data::Table(coerced_pairs(pairs)),
        YamlData::Tagged(inner) => coerced(*inner),
    }
}

/// The entries of a YAML mapping, by the text of their keys.
pub open spec fn coerced_pairs(pairs: Seq<(KeyData, YamlData)>) -> Map<Seq<char>, Data>
    decreases pairs,
{
    if pairs.len() == 0 {
        Map::empty()
    } else {
        coerced_pairs(pairs.drop_last()).insert(
            key_text(pairs.last().0),
            coerced(pairs.last().1),
        )
    }
}

/// Tells dates and date-times apart from other text.
pub fn coerce_string(s: &str) -> (r: Value)
    ensures
        r@ == coerced_text(s@),
{
    match Date::parse(s) {
        Some(d) => {
            return Value::Date(d);
        },
        None => {},
    }
    match DateTime::parse_from_rfc3339(s) {
        Some(t) => {
            return Value::DateTime(t);
        },
        None => {},
    }
    Value::String(text::copy_of(s))
}

fn coerce_number(n: &YamlNumber) -> (r: Value)
    ensures
        r@ == coerced_number(n@),
{
    match n.int {
        Some(i) => Value::Int(i),
        None => match &n.float {
            Some(f) => Value::Float(f.clone()),
            None => Value::String(n.text.clone()),
        },
    }
}

/// The text that a YAML key stands for.
pub fn yaml_scalar_to_string(k: &YamlKey) -> (r: String)
    ensures
        r@ == key_text(k@),
{
    match k {
        YamlKey::Null => text::copy_of("null"),
        YamlKey::Bool(b) => numbers::write_bool(*b),
        YamlKey::Number(n) => n.text.clone(),
        YamlKey::String(s) => s.clone(),
        YamlKey::Other(s) => text::trim(s.as_str()),
    }
}

fn coerce_pairs(pairs: &Vec<(YamlKey, Yaml)>) -> (r: Frontmatter)
    ensures
        value::table_data(r@) == coerced_pairs(yaml::pairs_data(pairs@)),
    decreases pairs,
{
    let mut out: Frontmatter = SortedMap::new();
    let ghost all = yaml::pairs_data(pairs@);
    assert(value::table_data(out@) =~= coerced_pairs(all.take(0)));
    let mut i: usize = 0;
    while i < pairs.len()
        invariant
            i <= pairs@.len(),
            all == yaml::pairs_data(pairs@),
            value::table_data(out@) == coerced_pairs(all.take(i as int)),
        decreases pairs@.len() - i,
    {
        let key = yaml_scalar_to_string(&pairs[i].0);
        proof {
            assert(decreases_to!(*pairs => pairs@));
            assert(decreases_to!(pairs@ => pairs@[i as int]));
        }
        let v = coerce(&pairs[i].1);
        let ghost before = out@;
        out.insert(key, v);
        proof {
            let next = all.take(i + 1);
            assert(next.drop_last() =~= all.take(i as int));
            assert(next.last() == (pairs@[i as int].0@, pairs@[i as int].1@));
            assert(value::table_data(out@) =~= value::table_data(before).insert(key@, v@));
        }
        i += 1;
    }
    assert(all.take(i as int) =~= all);
    out
}

/// The value of a YAML tree.
pub fn coerce(y: &Yaml) -> (r: Value)
    ensures
        r@ == coerced(y@),
    decreases y,
{
    match y {
        Yaml::Null => Value::Null,
        Yaml::Bool(b) => Value::Bool(*b),
        Yaml::Number(n) => coerce_number(n),
        Yaml::String(s) => coerce_string(s.as_str()),
        Yaml::Sequence(items) => {
            let mut out: Vec<Value> = Vec::new();
            let mut i: usize = 0;
            while i < items.len()
                invariant
                    i <= items@.len(),
                    out@.len() == i,
                    *y == Yaml::Sequence(*items),
                    forall|j: int| 0 <= j < i ==> (#[trigger] out@[j])@ == coerced(items@[j]@),
                decreases items@.len() - i,
            {
                proof {
                    assert(decreases_to!(*y => y->Sequence_0));
                    assert(decreases_to!(items@ => items@[i as int]));
                }
                let v = coerce(&items[i]);
                out.push(v);
                i += 1;
            }
            proof {
                yaml::sequence_data(*items);
                value::sequence_data(out);
                assert(value::list_data(out@) =~= coerced(y@)->List_0);
            }
            Value::Sequence(out)
        },
        Yaml::Mapping(pairs) => {
            let out = coerce_pairs(pairs);
            proof {
                yaml::mapping_data(*pairs);
                value::mapping_data(out);
            }
            Value::Mapping(out)
        },
        Yaml::Tagged(inner) => coerce(inner),
    }
}

/// What frontmatter comes to: its table, and what is odd about it; or the
/// text of the YAML error.
pub type FrontmatterData = Result<(Map<Seq<char>, Data>, Option<WarningKindData>), Seq<char>>;

/// The frontmatter that a read YAML document gives.
pub open spec fn document_frontmatter(doc: Result<YamlData, Seq<char>>) -> FrontmatterData {
    match doc {
        Err(e) => Err(e),
        Ok(YamlData::Pairs(pairs)) => Ok((coerced_pairs(pairs), None)),
        Ok(_) => Ok((Map::empty(), Some(WarningKindData::FrontmatterNotMapping))),
    }
}

/// The frontmatter in a YAML text; blank text is empty frontmatter.
pub open spec fn text_frontmatter(s: Seq<char>) -> FrontmatterData {
    if text::trimmed(s).len() == 0 {
        Ok((Map::empty(), None))
    } else {
        document_frontmatter(outside::yaml(s))
    }
}

/// Whether a frontmatter outcome is what `expected` says.
pub open spec fn frontmatter_is(
    r: Result<(Frontmatter, Option<ScanWarningKind>), ScanIssueKind>,
    expected: FrontmatterData,
) -> bool {
    match (r, expected) {
        (Ok((fm, w)), Ok((table, odd))) => value::table_data(fm@) == table && odd_data(w)
            == odd,
        (Err(kind), Err(e)) => kind@ == IssueKindData::FrontmatterParse(e),
        _ => false,
    }
}

/// What a read YAML document comes to as frontmatter. One that is no mapping
/// is kept as empty frontmatter, with a warning.
pub fn frontmatter_of(doc: Result<Yaml, String>) -> (r: Result<
    (Frontmatter, Option<ScanWarningKind>),
    ScanIssueKind,
>)
    ensures
        frontmatter_is(
            r,
            document_frontmatter(
                match doc {
                    Ok(y) => Ok(y@),
                    Err(e) => Err(e@),
                },
            ),
        ),
{
    match doc {
        Err(e) => Err(ScanIssueKind::FrontmatterParse(e)),
        Ok(y) => match y {
            Yaml::Mapping(pairs) => {
                proof {
                    yaml::mapping_data(pairs);
                }
                Ok((coerce_pairs(&pairs), None))
            },
            _ => {
                let empty: Frontmatter = SortedMap::new();
                assert(value::table_data(empty@) =~= Map::<Seq<char>, Data>::empty());
                Ok((empty, Some(ScanWarningKind::FrontmatterNotMapping)))
            },
        },
    }
}

/// Reads the frontmatter in a YAML text.
pub fn parse_frontmatter_audit(s: &str) -> (r: Result<
    (Frontmatter, Option<ScanWarningKind>),
    ScanIssueKind,
>)
    ensures
        frontmatter_is(r, text_frontmatter(s@)),
{
    if text::trim(s).as_str().is_empty() {
        let empty: Frontmatter = SortedMap::new();
        assert(value::table_data(empty@) =~= Map::<Seq<char>, Data>::empty());
        return Ok((empty, None));
    }
    frontmatter_of(outside::read_yaml(s))
}

/// The strong entity tag of a file: the BLAKE3 hash of its bytes in double
/// quotes.
pub open spec fn etag_of(bytes: Seq<u8>) -> Seq<char> {
    "\""@ + outside::blake3_hex(bytes) + "\""@
}

/// A strong entity tag: in double quotes, and without a comma.
pub open spec fn is_strong_tag(etag: Seq<char>) -> bool {
    &&& etag.len() >= 2
    &&& etag[0] == '"' && etag.last() == '"'
    &&& !etag.contains(',')
}

/// The strong entity tag of a file.
pub fn compute_etag(bytes: &[u8]) -> (r: String)
    ensures
        r@ == etag_of(bytes@),
        is_strong_tag(r@),
{
    let hex = outside::hash_hex(bytes);
    let mut out = text::copy_of("\"");
    out.append(hex.as_str());
    out.append("\"");
    proof {
        reveal_strlit("\"");
        if out@.contains(',') {
            let i = out@.index_of(',');
            assert(0 < i < 65);
            assert(out@[i] == hex@[i - 1]);
        }
    }
    out
}

/// What was read of a file.
#[derive(Debug)]
pub struct FileRead {
    pub raw_bytes: Vec<u8>,
    pub modified: Instant,
}

/// Why a file could not be read; `not_found` if it is not there.
#[derive(Debug)]
pub struct ReadFailure {
    pub message: String,
    pub not_found: bool,
}

/// What came of reading a file.
pub type FileOutcome = Result<FileRead, ReadFailure>;

/// What a [`FileOutcome`] says.
pub enum OutcomeData {
    Read { raw_bytes: Seq<u8>, modified: (i64, u32) },
    Failed { message: Seq<char>, not_found: bool },
}

/// What came of reading a file, as a whole.
pub open spec fn outcome_data(read: FileOutcome) -> OutcomeData {
    match read {
        Ok(f) => OutcomeData::Read { raw_bytes: f.raw_bytes@, modified: f.modified@ },
        Err(e) => OutcomeData::Failed { message: e.message@, not_found: e.not_found },
    }
}

/// The path of a note: relative to the vault root where it lies inside it.
pub open spec fn note_path(root: Seq<u8>, abs: Seq<u8>) -> Option<Seq<char>> {
    paths::slashed(
        match paths::stripped(abs, root) {
            Some(rel) => rel,
            None => abs,
        },
    )
}

/// The note that a file gives and what is odd about it, or why it gives none.
pub type NoteOutcome = Result<(NoteData, Option<WarningKindData>), IssueKindData>;

/// The note that a file gives, or why it gives none: reading failed, the
/// bytes are not text, the frontmatter is not YAML, the path is not text, in
/// this order.
pub open spec fn note_of(root: Seq<u8>, abs: Seq<u8>, read: OutcomeData) -> NoteOutcome {
    match read {
        OutcomeData::Failed { message, not_found } => Err(
            IssueKindData::Io { message, not_found },
        ),
        OutcomeData::Read { raw_bytes, modified } => if !valid_utf8(raw_bytes) {
            Err(IssueKindData::NonUtf8Body)
        } else {
            let (front, body) = split_source(decode_utf8(raw_bytes));
            match text_frontmatter(front) {
                Err(e) => Err(IssueKindData::FrontmatterParse(e)),
                Ok((frontmatter, odd)) => match note_path(root, abs) {
                    None => Err(IssueKindData::NonUtf8Path),
                    Some(path) => Ok(
                        (
                            NoteData {
                                path,
                                frontmatter,
                                body,
                                raw_bytes,
                                last_modified: modified,
                                etag: etag_of(raw_bytes),
                                size: raw_bytes.len() as u64,
                            },
                            odd,
                        ),
                    ),
                },
            }
        },
    }
}

/// Turns what was read of one Markdown file into its note, together with what
/// is odd about it.
pub fn scan_one_audit(vault_root: &[u8], abs_path: &[u8], read: FileOutcome) -> (r: Result<
    (Note, Option<ScanWarningKind>),
    ScanIssueKind,
>)
    ensures
        match r {
            Ok((note, w)) => note_of(vault_root@, abs_path@, outcome_data(read)) == Ok::<
                (NoteData, Option<WarningKindData>),
                IssueKindData,
            >((note@, odd_data(w))),
            Err(kind) => note_of(vault_root@, abs_path@, outcome_data(read)) == Err::<
                (NoteData, Option<WarningKindData>),
                IssueKindData,
            >(kind@),
        },
        r matches Ok((note, _)) ==> is_strong_tag(note.etag@),
{
    let file = match read {
        Ok(f) => f,
        Err(e) => {
            return Err(ScanIssueKind::Io { message: e.message, not_found: e.not_found });
        },
    };
    let size: u64 = file.raw_bytes.len() as u64;
    let etag = compute_etag(file.raw_bytes.as_slice());
    let src = match outside::text_of(file.raw_bytes.as_slice()) {
        Some(s) => s,
        None => {
            return Err(ScanIssueKind::NonUtf8Body);
        },
    };
    let (front, body) = split_frontmatter(src.as_str());
    let (frontmatter, warning) = match parse_frontmatter_audit(front.as_str()) {
        Ok(p) => p,
        Err(kind) => {
            return Err(kind);
        },
    };
    let rel = match paths::strip_prefix(abs_path, vault_root) {
        Some(rel) => rel,
        None => paths::copy_bytes(abs_path),
    };
    let path = match paths::to_slashed(rel.as_slice()) {
        Some(p) => p,
        None => {
            return Err(ScanIssueKind::NonUtf8Path);
        },
    };
    Ok(
        (
            Note {
                path,
                frontmatter,
                body,
                raw_bytes: file.raw_bytes,
                last_modified: file.modified,
                etag,
                size,
            },
            warning,
        ),
    )
}

/// Turns what was read of one Markdown file into its note; what is odd about
/// it is passed over.
pub fn scan_one(vault_root: &[u8], abs_path: &[u8], read: FileOutcome) -> (r: Result<
    Note,
    ScanIssueKind,
>)
    ensures
        match note_of(vault_root@, abs_path@, outcome_data(read)) {
            Ok((note, _)) => r matches Ok(n) && n@ == note,
            Err(kind) => r matches Err(k) && k@ == kind,
        },
{
    match scan_one_audit(vault_root, abs_path, read) {
        Ok((note, _)) => Ok(note),
        Err(kind) => Err(kind),
    }
}

/// Whether the walk goes into an entry: the start of the walk always, below it
/// only what has no dot-prefixed name.
pub fn enters(depth: usize, name: &[u8]) -> (r: bool)
    ensures
        r == (depth == 0 || !paths::dot_prefixed(name@)),
{
    depth == 0 || !paths::is_dot_prefixed(name)
}

/// Whether an entry of the walk is to be read: a file with a Markdown name.
pub fn wanted(is_file: bool, path: &[u8]) -> (r: bool)
    ensures
        r == (is_file && paths::is_markdown_path(path@)),
{
    is_file && paths::is_markdown(path)
}

/// One step of a walk through the vault.
#[derive(Debug)]
pub enum WalkItem {
    /// An entry that the walk could not look at. The path is empty where it is
    /// not known.
    Failed { path: Vec<u8>, message: String },
    /// An entry, and what came of reading it. The walk reads every file that
    /// [`wanted`] asks for, and no other; an entry that was not read is passed
    /// over.
    Entry { path: Vec<u8>, is_file: bool, read: Option<FileOutcome> },
}

/// What a [`WalkItem`] says.
pub enum WalkData {
    Failed { path: Seq<u8>, message: Seq<char> },
    Entry { path: Seq<u8>, is_file: bool, read: Option<OutcomeData> },
}

impl View for WalkItem {
    type V = WalkData;

    open spec fn view(&self) -> WalkData {
        match self {
            WalkItem::Failed { path, message } => WalkData::Failed {
                path: path@,
                message: message@,
            },
            WalkItem::Entry { path, is_file, read } => WalkData::Entry {
                path: path@,
                is_file: *is_file,
                read: match read {
                    Some(r) => Some(outcome_data(*r)),
                    None => None,
                },
            },
        }
    }
}

/// What a walk says.
pub open spec fn walk_data(items: Seq<WalkItem>) -> Seq<WalkData> {
    items.map_values(|i: WalkItem| i@)
}

/// What a step of the walk adds to what was found.
pub open spec fn scan_step(root: Seq<u8>, found: ScanData, item: WalkData) -> ScanData {
    match item {
        WalkData::Failed { path, message } => ScanData {
            issues: found.issues.push(
                IssueData { path, kind: IssueKindData::Io { message, not_found: false } },
            ),
            ..found
        },
        WalkData::Entry { path, is_file, read } => match read {
            None => found,
            Some(outcome) => if !is_file || !paths::is_markdown_path(path) {
                found
            } else {
                match note_of(root, path, outcome) {
                    Err(kind) => ScanData {
                        issues: found.issues.push(IssueData { path, kind }),
                        ..found
                    },
                    Ok((note, odd)) => ScanData {
                        notes: found.notes.push(note),
                        issues: found.issues,
                        warnings: match odd {
                            Some(kind) => found.warnings.push(WarningData { path, kind }),
                            None => found.warnings,
                        },
                    },
                }
            },
        },
    }
}

/// What a walk finds, step by step.
pub open spec fn scanned(root: Seq<u8>, walk: Seq<WalkData>) -> ScanData
    decreases walk.len(),
{
    if walk.len() == 0 {
        ScanData { notes: seq![], issues: seq![], warnings: seq![] }
    } else {
        scan_step(root, scanned(root, walk.drop_last()), walk.last())
    }
}

/// Turns a walk through the vault, or through a directory in it, into notes.
/// Note paths are relative to the vault root either way, so that what is found
/// in a directory compares with what is found in the whole vault.
pub fn scan_from(vault_root: &[u8], walk: Vec<WalkItem>) -> (r: ScanResult)
    ensures
        r@ == scanned(vault_root@, walk_data(walk@)),
{
    let mut found = ScanResult { notes: Vec::new(), issues: Vec::new(), warnings: Vec::new() };
    let ghost all = walk_data(walk@);
    let n: usize = walk.len();
    let mut rest = lists::reversed(walk);
    proof {
        assert(found@ =~= scanned(vault_root@, all.take(0)));
    }
    let ghost mut i: int = 0;
    while rest.len() > 0
        invariant
            i == n - rest@.len(),
            0 <= i <= n == all.len(),
            forall|j: int| 0 <= j < rest@.len() ==> (#[trigger] rest@[j])@ == all[n - 1 - j],
            found@ == scanned(vault_root@, all.take(i)),
        decreases rest@.len(),
    {
        let ghost before = found@;
        let ghost next = all.take(i + 1);
        let item = match rest.pop() {
            Some(item) => item,
            None => {
                return found;
            },
        };
        proof {
            assert(next.drop_last() =~= all.take(i));
            assert(next.last() == item@);
        }
        match item {
            WalkItem::Failed { path, message } => {
                found.issues.push(
                    ScanIssue { path, kind: ScanIssueKind::Io { message, not_found: false } },
                );
            },
            WalkItem::Entry { path, is_file, read } => {
                match read {
                    Some(outcome) => {
                        if wanted(is_file, path.as_slice()) {
                            match scan_one_audit(vault_root, path.as_slice(), outcome) {
                                Ok((note, warning)) => {
                                    match warning {
                                        Some(kind) => {
                                            found.warnings.push(ScanWarning { path, kind });
                                        },
                                        None => {},
                                    }
                                    found.notes.push(note);
                                },
                                Err(kind) => {
                                    found.issues.push(ScanIssue { path, kind });
                                },
                            }
                        }
                    },
                    None => {},
                }
            },
        }
        proof {
            assert(found@ =~= scan_step(vault_root@, before, next.last()));
            i = i + 1;
        }
    }
    assert(all.take(i) =~= all);
    found
}

/// Turns a walk through the whole vault into notes, and reports every file
/// that could not be turned into one. No single file stops the scan.
pub fn scan(vault_root: &[u8], walk: Vec<WalkItem>) -> (r: ScanResult)
    ensures
        r@ == scanned(vault_root@, walk_data(walk@)),
{
    scan_from(vault_root, walk)
}

/// Files of the same bytes have the same entity tag, whatever their paths and
/// times.
pub proof fn same_bytes_same_etag(
    root: Seq<u8>,
    a: Seq<u8>,
    b: Seq<u8>,
    raw_bytes: Seq<u8>,
    s: (i64, u32),
    t: (i64, u32),
)
    ensures
        match (
            note_of(root, a, OutcomeData::Read { raw_bytes, modified: s }),
            note_of(root, b, OutcomeData::Read { raw_bytes, modified: t }),
        ) {
            (Ok((x, _)), Ok((y, _))) => x.etag == y.etag && x.etag == etag_of(raw_bytes),
            _ => true,
        },
{
}

/// Every step of a walk that names a wanted file ends as a note or as an
/// issue, every failed step ends as an issue, and a warning comes with a note.
pub proof fn scan_accounts_for_every_file(root: Seq<u8>, walk: Seq<WalkData>)
    ensures
        scanned(root, walk).notes.len() + scanned(root, walk).issues.len() == walk.filter(
            |i: WalkData| counts(i),
        ).len(),
        scanned(root, walk).warnings.len() <= scanned(root, walk).notes.len(),
    decreases walk.len(),
{
    reveal(Seq::filter);
    if walk.len() > 0 {
        scan_accounts_for_every_file(root, walk.drop_last());
    }
}

/// Whether a step of a walk failed or names a file that was wanted and read.
pub open spec fn counts(i: WalkData) -> bool {
    match i {
        WalkData::Failed { .. } => true,
        WalkData::Entry { path, is_file, read } => read is Some && is_file
            && paths::is_markdown_path(path),
    }
}

/// A walk can be taken in parts: what two walks find, one after the other, is
/// what they find together. So what a directory holds is the same whether it
/// is walked alone or with the whole vault.
pub proof fn walks_add_up(root: Seq<u8>, a: Seq<WalkData>, b: Seq<WalkData>)
    ensures
        scanned(root, a + b).notes == scanned(root, a).notes + scanned(root, b).notes,
        scanned(root, a + b).issues == scanned(root, a).issues + scanned(root, b).issues,
        scanned(root, a + b).warnings == scanned(root, a).warnings + scanned(root, b).warnings,
    decreases b.len(),
{
    if b.len() == 0 {
        assert(a + b =~= a);
        assert(scanned(root, a).notes + scanned(root, b).notes =~= scanned(root, a).notes);
        assert(scanned(root, a).issues + scanned(root, b).issues =~= scanned(root, a).issues);
        assert(scanned(root, a).warnings + scanned(root, b).warnings =~= scanned(root, a).warnings);
    } else {
        let rest = b.drop_last();
        walks_add_up(root, a, rest);
        assert((a + b).drop_last() =~= a + rest);
        assert((a + b).last() == b.last());
        let x = scanned(root, a);
        let y = scanned(root, rest);
        let z = scanned(root, b);
        let all = scanned(root, a + b);
        assert(all.notes =~= x.notes + z.notes);
        assert(all.issues =~= x.issues + z.issues);
        assert(all.warnings =~= x.warnings + z.warnings);
    }
}

/// Every note that a walk finds is that of a Markdown file which the walk read.
pub proof fn notes_come_from_files(root: Seq<u8>, walk: Seq<WalkData>, i: int)
    requires
        0 <= i < scanned(root, walk).notes.len(),
    ensures
        exists|j: int|
            0 <= j < walk.len() && gives(root, #[trigger] walk[j], scanned(root, walk).notes[i]),
    decreases walk.len(),
{
    if walk.len() > 0 {
        let rest = walk.drop_last();
        let n = walk.len() - 1;
        if i < scanned(root, rest).notes.len() {
            notes_come_from_files(root, rest, i);
            let j = choose|j: int|
                0 <= j < rest.len() && gives(
                    root,
                    #[trigger] rest[j],
                    scanned(root, rest).notes[i],
                );
            assert(walk[j] == rest[j]);
            assert(gives(root, walk[j], scanned(root, walk).notes[i]));
        } else {
            assert(gives(root, walk[n], scanned(root, walk).notes[i]));
        }
    }
}

/// Whether a step of a walk is a Markdown file that gives a note.
pub open spec fn gives(root: Seq<u8>, item: WalkData, note: NoteData) -> bool {
    match item {
        WalkData::Entry { path, is_file, read } => is_file && paths::is_markdown_path(path)
            && read is Some && (note_of(root, path, read->0) matches Ok(n) && n.0 == note),
        _ => false,
    }
}

/// The path that a step of a walk names.
pub open spec fn step_path(i: WalkData) -> Seq<u8> {
    match i {
        WalkData::Failed { path, .. } => path,
        WalkData::Entry { path, .. } => path,
    }
}

/// Whether a step of a walk is beneath a directory.
pub open spec fn step_beneath(start: Seq<u8>) -> spec_fn(WalkData) -> bool {
    |i: WalkData| names::beneath(start, step_path(i))
}

/// Whether a note lies in a directory of the vault, at any depth.
pub open spec fn note_under(dir: Seq<char>) -> spec_fn(NoteData) -> bool {
    |n: NoteData| store::is_under(n.path, dir)
}

/// Whether an issue is of a file beneath a directory.
pub open spec fn issue_beneath(start: Seq<u8>) -> spec_fn(IssueData) -> bool {
    |i: IssueData| names::beneath(start, i.path)
}

/// Whether a warning is of a file beneath a directory.
pub open spec fn warning_beneath(start: Seq<u8>) -> spec_fn(WarningData) -> bool {
    |w: WarningData| names::beneath(start, w.path)
}

/// Whether the files that a walk read lie beneath a directory, by plain names.
/// Nothing is asked of the other steps: of the entry of the start itself, of
/// directories and other files, which add nothing, and of steps that failed.
pub open spec fn files_beneath(start: Seq<u8>, walk: Seq<WalkData>) -> bool {
    forall|i: int|
        0 <= i < walk.len() && walk[i] is Entry && counts(walk[i]) ==> names::beneath(
            start,
            step_path(#[trigger] walk[i]),
        )
}

/// The steps of a walk beneath a directory find the part of what the whole walk
/// finds that is of the directory: the notes whose paths go on from that of the
/// directory, and the issues and warnings of the files beneath it. This is of
/// walks whose files lie beneath the root by plain names; a backslash in a name
/// would be told as a slash.
pub proof fn subtree_scan_is_a_part(root: Seq<u8>, dir: Seq<char>, walk: Seq<WalkData>)
    requires
        names::plain_text(dir),
        files_beneath(root, walk),
    ensures
        ({
            let start = paths::joined(root, encode_utf8(dir));
            let part = scanned(root, walk.filter(step_beneath(start)));
            let whole = scanned(root, walk);
            &&& part.notes == whole.notes.filter(note_under(dir))
            &&& part.issues == whole.issues.filter(issue_beneath(start))
            &&& part.warnings == whole.warnings.filter(warning_beneath(start))
        }),
    decreases walk.len(),
{
    reveal(Seq::filter);
    let start = paths::joined(root, encode_utf8(dir));
    let f = step_beneath(start);
    if walk.len() > 0 {
        let rest = walk.drop_last();
        let item = walk.last();
        assert forall|i: int|
            0 <= i < rest.len() && rest[i] is Entry && counts(rest[i]) implies names::beneath(
            root,
            step_path(#[trigger] rest[i]),
        ) by {
            assert(rest[i] == walk[i]);
        }
        subtree_scan_is_a_part(root, dir, rest);
        let before = scanned(root, rest);
        let whole = scanned(root, walk);
        let path = step_path(item);
        assert(walk[walk.len() - 1] == item);
        if note_path(root, path) is Some && item is Entry && counts(item) {
            names::beneath_is_under(root, dir, path);
        }
        if f(item) {
            let taken = rest.filter(f).push(item);
            assert(walk.filter(f) == taken);
            assert(taken.drop_last() =~= rest.filter(f));
        } else {
            assert(walk.filter(f) == rest.filter(f));
        }
        if whole.notes.len() > before.notes.len() {
            assert(whole.notes.drop_last() =~= before.notes);
        }
        if whole.issues.len() > before.issues.len() {
            assert(whole.issues.drop_last() =~= before.issues);
        }
        if whole.warnings.len() > before.warnings.len() {
            assert(whole.warnings.drop_last() =~= before.warnings);
        }
    }
}

/// Every note found in a directory that is walked alone has a path that goes on
/// from that of the directory.
pub proof fn subtree_notes_lie_under_it(root: Seq<u8>, dir: Seq<char>, walk: Seq<WalkData>, i: int)
    requires
        names::plain_text(dir),
        files_beneath(paths::joined(root, encode_utf8(dir)), walk),
        0 <= i < scanned(root, walk).notes.len(),
    ensures
        store::is_under(scanned(root, walk).notes[i].path, dir),
{
    notes_come_from_files(root, walk, i);
    let j = choose|j: int|
        0 <= j < walk.len() && gives(root, #[trigger] walk[j], scanned(root, walk).notes[i]);
    let path = step_path(walk[j]);
    names::beneath_a_directory(root, dir, path);
    names::beneath_is_under(root, dir, path);
}

/// Whether a step of a walk counts.
pub open spec fn step_counts() -> spec_fn(WalkData) -> bool {
    |i: WalkData| counts(i)
}

/// Whether a step of a walk counts and is beneath a directory.
pub open spec fn step_counts_beneath(start: Seq<u8>) -> spec_fn(WalkData) -> bool {
    |i: WalkData| names::beneath(start, step_path(i)) && counts(i)
}

/// What does not count adds nothing.
proof fn what_counts_is_found(root: Seq<u8>, walk: Seq<WalkData>)
    ensures
        scanned(root, walk.filter(step_counts())) == scanned(root, walk),
    decreases walk.len(),
{
    reveal(Seq::filter);
    if walk.len() > 0 {
        let rest = walk.drop_last();
        what_counts_is_found(root, rest);
        if counts(walk.last()) {
            let taken = rest.filter(step_counts()).push(walk.last());
            assert(walk.filter(step_counts()) == taken);
            assert(taken.drop_last() =~= rest.filter(step_counts()));
        }
    }
}

proof fn beneath_and_counting(start: Seq<u8>, walk: Seq<WalkData>)
    ensures
        walk.filter(step_beneath(start)).filter(step_counts()) == walk.filter(
            step_counts_beneath(start),
        ),
    decreases walk.len(),
{
    reveal(Seq::filter);
    if walk.len() > 0 {
        let rest = walk.drop_last();
        let item = walk.last();
        beneath_and_counting(start, rest);
        if names::beneath(start, step_path(item)) {
            let taken = rest.filter(step_beneath(start)).push(item);
            assert(walk.filter(step_beneath(start)) == taken);
            assert(taken.drop_last() =~= rest.filter(step_beneath(start)));
        }
    }
}

/// The notes of a walk whose steps are in another order are the same, in
/// another order.
proof fn order_loses_no_note(root: Seq<u8>, a: Seq<WalkData>, b: Seq<WalkData>)
    requires
        a.to_multiset() == b.to_multiset(),
    ensures
        scanned(root, a).notes.to_multiset() == scanned(root, b).notes.to_multiset(),
    decreases a.len(),
{
    broadcast use vstd::seq_lib::group_to_multiset_ensures;
    assert(a.len() == a.to_multiset().len());
    assert(b.len() == b.to_multiset().len());
    if a.len() == 0 {
        assert(a =~= b);
    } else {
        let x = a.last();
        let rest = a.drop_last();
        assert(a.contains(x));
        assert(a.to_multiset().contains(x));
        assert(b.to_multiset().contains(x));
        assert(b.contains(x));
        let i = b.index_of(x);
        let head = b.take(i);
        let tail = b.skip(i + 1);
        let one = seq![x];
        assert(a =~= rest + one);
        assert(b =~= head + one + tail);
        vstd::seq_lib::lemma_multiset_commutative(rest, one);
        vstd::seq_lib::lemma_multiset_commutative(head, one);
        vstd::seq_lib::lemma_multiset_commutative(head + one, tail);
        vstd::seq_lib::lemma_multiset_commutative(head, tail);
        let other = head + tail;
        assert(rest.to_multiset() =~= other.to_multiset()) by {
            assert(a.to_multiset() =~= rest.to_multiset().add(one.to_multiset()));
            assert(b.to_multiset() =~= other.to_multiset().add(one.to_multiset()));
            assert forall|s: WalkData| rest.to_multiset().count(s) == other.to_multiset().count(
                s,
            ) by {
                let m = one.to_multiset().count(s);
                assert(a.to_multiset().count(s) == rest.to_multiset().count(s) + m);
                assert(b.to_multiset().count(s) == other.to_multiset().count(s) + m);
            }
        }
        order_loses_no_note(root, rest, other);
        walks_add_up(root, rest, one);
        walks_add_up(root, head, tail);
        walks_add_up(root, head + one, tail);
        walks_add_up(root, head, one);
        let n = scanned(root, one).notes;
        let h = scanned(root, head).notes;
        let t = scanned(root, tail).notes;
        let r = scanned(root, rest).notes;
        vstd::seq_lib::lemma_multiset_commutative(r, n);
        vstd::seq_lib::lemma_multiset_commutative(h, n);
        vstd::seq_lib::lemma_multiset_commutative(h + n, t);
        vstd::seq_lib::lemma_multiset_commutative(h, t);
        assert(scanned(root, a).notes.to_multiset() =~= scanned(root, b).notes.to_multiset());
    }
}

/// A scan of a directory compares with a scan of the whole vault: where the
/// walk through the directory reads, in any order, the files beneath it that
/// the walk through the vault reads, and meets the same failures there, its
/// notes are, up to their order, exactly the notes of the vault whose paths go
/// on from that of the directory. What else either walk passes, such as the
/// entry of its own start, does not matter.
pub proof fn subtree_scan_compares(
    root: Seq<u8>,
    dir: Seq<char>,
    whole: Seq<WalkData>,
    part: Seq<WalkData>,
)
    requires
        names::plain_text(dir),
        files_beneath(root, whole),
        part.filter(step_counts()).to_multiset() == whole.filter(
            step_counts_beneath(paths::joined(root, encode_utf8(dir))),
        ).to_multiset(),
    ensures
        scanned(root, part).notes.to_multiset() == scanned(root, whole).notes.filter(
            note_under(dir),
        ).to_multiset(),
{
    let start = paths::joined(root, encode_utf8(dir));
    let beneath = whole.filter(step_beneath(start));
    what_counts_is_found(root, part);
    subtree_scan_is_a_part(root, dir, whole);
    what_counts_is_found(root, beneath);
    beneath_and_counting(start, whole);
    order_loses_no_note(
        root,
        part.filter(step_counts()),
        whole.filter(step_counts_beneath(start)),
    );
}

/// Whether a line that is exactly `---` starts at `p` and ends in a line break.
pub open spec fn is_marker_line(s: Seq<char>, p: int) -> bool {
    &&& 0 <= p && p + 4 <= s.len()
    &&& p == 0 || s[p - 1] == '\n'
    &&& s.subrange(p, p + 4) == seq!['-', '-', '-', '\n']
}

/// Whether a text is made of whole lines, none of which is exactly `---`.
pub open spec fn is_front_matter(s: Seq<char>) -> bool {
    &&& s.len() > 0 ==> s.last() == '\n'
    &&& forall|p: int| !#[trigger] is_marker_line(s, p)
}

proof fn first_close_is(s: Seq<char>, from: int, p: int)
    requires
        0 <= from <= p,
        closes_at(s, p),
        forall|j: int| from <= j < p ==> !closes_at(s, j),
    ensures
        first_close(s, from) == Some(p),
    decreases p - from,
{
    if from < p {
        first_close_is(s, from + 1, p);
    }
}

proof fn first_close_is_none(s: Seq<char>, from: int)
    requires
        0 <= from,
        forall|j: int| from <= j < s.len() ==> !closes_at(s, j),
    ensures
        first_close(s, from) is None,
    decreases s.len() - from,
{
    if from < s.len() {
        first_close_is_none(s, from + 1);
    }
}

proof fn front_matter_does_not_close(front: Seq<char>, rest: Seq<char>, j: int)
    requires
        is_front_matter(front),
        0 <= j < front.len(),
    ensures
        !closes_at(front + rest, j),
{
    let s = front + rest;
    let n = front.len() as int;
    if closes_at(s, j) {
        assert(front[n - 1] == '\n');
        assert(s[j] == front[j]);
        assert(j < n - 1);
        assert(s[j + 1] == front[j + 1]);
        assert(j + 1 < n - 1);
        assert(s[j + 2] == front[j + 2]);
        assert(j + 2 < n - 1);
        assert(s[j + 3] == front[j + 3]);
        assert(front.subrange(j, j + 4) =~= seq!['-', '-', '-', '\n']);
        assert(is_marker_line(front, j));
    }
}

/// Frontmatter between its markers is told from the body behind it, whatever
/// stands in the body, and whether or not a line break follows the closing
/// marker.
pub proof fn markers_part_a_source(front: Seq<char>, body: Seq<char>)
    requires
        is_front_matter(front),
    ensures
        split_source("---\n"@ + front + "---\n"@ + body) == (front, body),
        split_source("---\n"@ + front + "---"@) == (front, Seq::<char>::empty()),
{
    reveal_strlit("---\n");
    reveal_strlit("---");
    let n = front.len() as int;
    let a = "---\n"@ + front + "---\n"@ + body;
    let s = front + ("---\n"@ + body);
    assert(a.take(4) =~= "---\n"@);
    assert(a.skip(4) =~= s);
    assert(s[n] == '-' && s[n + 1] == '-' && s[n + 2] == '-' && s[n + 3] == '\n');
    assert(n > 0 ==> s[n - 1] == front[n - 1]);
    assert(closes_at(s, n));
    assert forall|j: int| 0 <= j < n implies !closes_at(s, j) by {
        front_matter_does_not_close(front, "---\n"@ + body, j);
    }
    first_close_is(s, 0, n);
    assert(s.take(n) =~= front);
    assert(s.skip(n + 4) =~= body);
    if n + 3 == s.len() {
        assert(s.len() == n + 4 + body.len());
    }
    let b = "---\n"@ + front + "---"@;
    let t = front + "---"@;
    assert(b.take(4) =~= "---\n"@);
    assert(b.skip(4) =~= t);
    assert(t[n] == '-' && t[n + 1] == '-' && t[n + 2] == '-');
    assert(n > 0 ==> t[n - 1] == front[n - 1]);
    assert(closes_at(t, n));
    assert forall|j: int| 0 <= j < n implies !closes_at(t, j) by {
        front_matter_does_not_close(front, "---"@, j);
    }
    first_close_is(t, 0, n);
    assert(t.take(n) =~= front);
}

/// Whether a line that is exactly `---` starts at `p`, at the end of the text or
/// with a line break behind it.
pub open spec fn is_closing_line(s: Seq<char>, p: int) -> bool {
    &&& 0 < p && p + 3 <= s.len()
    &&& s[p - 1] == '\n'
    &&& s.subrange(p, p + 3) == seq!['-', '-', '-']
    &&& p + 3 == s.len() || s[p + 3] == '\n'
}

/// A source that does not start with a marker line, or in which no further line
/// is one, is all body.
pub proof fn sources_without_markers_are_body(src: Seq<char>)
    requires
        src.len() < 4 || src.take(4) != seq!['-', '-', '-', '\n'] || forall|p: int|
            4 <= p ==> !#[trigger] is_closing_line(src, p),
    ensures
        split_source(src) == (Seq::<char>::empty(), src),
{
    reveal_strlit("---\n");
    assert("---\n"@ =~= seq!['-', '-', '-', '\n']);
    if text::has_prefix(src, "---\n"@) {
        assert(src[3] == '\n') by {
            assert(src.take(4)[3] == src[3]);
        }
        let s = src.skip(4);
        assert forall|j: int| 0 <= j < s.len() implies !closes_at(s, j) by {
            if closes_at(s, j) {
                assert(s[j] == src[j + 4] && s[j + 1] == src[j + 5] && s[j + 2] == src[j + 6]);
                assert(src.subrange(j + 4, j + 7) =~= seq!['-', '-', '-']);
                if j > 0 {
                    assert(s[j - 1] == src[j + 3]);
                }
                if j + 3 < s.len() {
                    assert(s[j + 3] == src[j + 7]);
                }
                assert(is_closing_line(src, j + 4));
            }
        }
        first_close_is_none(s, 0);
    }
}

/// A YAML scalar keeps what it says. A text that reads as a date is that date,
/// one that reads as an instant with an offset is that, any other stays text.
pub proof fn yaml_scalars_keep_what_they_say(b: bool, n: NumberData, s: Seq<char>)
    ensures
        coerced(YamlData::Null) == Data::Null,
        coerced(YamlData::Bool(b)) == Data::Bool(b),
        n.int matches Some(i) ==> coerced(YamlData::Number(n)) == Data::Int(i),
        n.int is None ==> (n.float matches Some(f) ==> coerced(YamlData::Number(n)) == Data::Float(
            f,
        )),
        outside::iso_date(s) matches Some((y, m, d)) ==> coerced(YamlData::Text(s)) == Data::Date(
            y,
            m,
            d,
        ),
        outside::iso_date(s) is None ==> (outside::rfc3339(s) matches Some((secs, nanos, offset))
            ==> coerced(YamlData::Text(s)) == Data::DateTime(
            DateTimeData { at: (secs, nanos), offset },
        )),
        outside::iso_date(s) is None && outside::rfc3339(s) is None ==> coerced(YamlData::Text(s))
            == Data::Text(s),
{
}

/// A YAML sequence becomes a list of as many items, each its own value; a tag
/// changes nothing.
pub proof fn yaml_sequences_keep_their_items(items: Seq<YamlData>, i: int, inner: YamlData)
    ensures
        coerced(YamlData::List(items)) is List,
        coerced(YamlData::List(items))->List_0.len() == items.len(),
        0 <= i < items.len() ==> coerced(YamlData::List(items))->List_0[i] == coerced(items[i]),
        coerced(YamlData::Tagged(Box::new(inner))) == coerced(inner),
{
}

/// A YAML key that is text is that text; one that is none has the text that it
/// is written as.
pub proof fn yaml_keys_are_their_text(s: Seq<char>, n: NumberData)
    ensures
        key_text(KeyData::Text(s)) == s,
        key_text(KeyData::Null) == seq!['n', 'u', 'l', 'l'],
        key_text(KeyData::Bool(true)) == seq!['t', 'r', 'u', 'e'],
        key_text(KeyData::Bool(false)) == seq!['f', 'a', 'l', 's', 'e'],
        key_text(KeyData::Number(n)) == n.text,
{
    reveal_strlit("null");
    reveal_strlit("true");
    reveal_strlit("false");
    assert("null"@ =~= seq!['n', 'u', 'l', 'l']);
    assert("true"@ =~= seq!['t', 'r', 'u', 'e']);
    assert("false"@ =~= seq!['f', 'a', 'l', 's', 'e']);
}

/// A YAML mapping holds exactly the keys that it names; of several entries of
/// one key the last one stands.
pub proof fn last_entry_of_a_key_stands(
    pairs: Seq<(KeyData, YamlData)>,
    key: Seq<char>,
    i: int,
)
    ensures
        coerced(YamlData::Pairs(pairs)) is Table,
        coerced(YamlData::Pairs(pairs))->Table_0.contains_key(key) <==> exists|j: int|
            0 <= j < pairs.len() && key_text((#[trigger] pairs[j]).0) == key,
        (0 <= i < pairs.len() && key_text(pairs[i].0) == key && forall|j: int|
            i < j < pairs.len() ==> key_text((#[trigger] pairs[j]).0) != key) ==> coerced(
            YamlData::Pairs(pairs),
        )->Table_0[key] == coerced(pairs[i].1),
    decreases pairs.len(),
{
    let t = coerced_pairs(pairs);
    if pairs.len() > 0 {
        let rest = pairs.drop_last();
        last_entry_of_a_key_stands(rest, key, i);
        let n = pairs.len() - 1;
        assert(t == coerced_pairs(rest).insert(key_text(pairs[n].0), coerced(pairs[n].1)));
        if exists|j: int| 0 <= j < rest.len() && key_text((#[trigger] rest[j]).0) == key {
            let j = choose|j: int| 0 <= j < rest.len() && key_text((#[trigger] rest[j]).0) == key;
            assert(key_text(pairs[j].0) == key);
        }
        if exists|j: int| 0 <= j < pairs.len() && key_text((#[trigger] pairs[j]).0) == key {
            let j = choose|j: int|
                0 <= j < pairs.len() && key_text((#[trigger] pairs[j]).0) == key;
            if j < n {
                assert(key_text(rest[j].0) == key);
            }
        }
        if 0 <= i < n && key_text(pairs[i].0) == key && forall|j: int|
            i < j < pairs.len() ==> key_text((#[trigger] pairs[j]).0) != key {
            assert(rest[i] == pairs[i]);
            assert forall|j: int| i < j < rest.len() implies key_text((#[trigger] rest[j]).0)
                != key by {
                assert(pairs[j] == rest[j]);
            }
            assert(key_text(pairs[n].0) != key);
        }
    }
}

/// A file with frontmatter between its markers becomes the note of its path
/// with that frontmatter, the body behind it, its own bytes, time and size, and
/// the hash of its bytes for a tag.
pub proof fn notes_hold_what_their_files_hold(
    root: Seq<u8>,
    rel: Seq<char>,
    raw_bytes: Seq<u8>,
    modified: (i64, u32),
    front: Seq<char>,
    body: Seq<char>,
    pairs: Seq<(KeyData, YamlData)>,
)
    requires
        names::plain_text(rel),
        valid_utf8(raw_bytes),
        raw_bytes.len() <= u64::MAX,
        is_front_matter(front),
        text::trimmed(front).len() > 0,
        decode_utf8(raw_bytes) == "---\n"@ + front + "---\n"@ + body,
        outside::yaml(front) == Ok::<YamlData, Seq<char>>(YamlData::Pairs(pairs)),
    ensures
        note_of(
            root,
            paths::joined(root, encode_utf8(rel)),
            OutcomeData::Read { raw_bytes, modified },
        ) matches Ok((note, odd)) && note.path == rel && note.body == body && note.raw_bytes
            == raw_bytes && note.last_modified == modified && note.size == raw_bytes.len()
            && note.etag == seq!['"'] + outside::blake3_hex(raw_bytes) + seq!['"']
            && Data::Table(note.frontmatter) == coerced(YamlData::Pairs(pairs)) && odd is None,
{
    reveal_strlit("\"");
    assert("\""@ =~= seq!['"']);
    markers_part_a_source(front, body);
    names::absolute_path_leads_back(root, rel);
    let abs = paths::joined(root, encode_utf8(rel));
    relative_is_the_path(root, abs);
}

proof fn relative_is_the_path(root: Seq<u8>, abs: Seq<u8>)
    requires
        paths::relative_text(root, abs) is Some,
    ensures
        note_path(root, abs) == paths::relative_text(root, abs),
{
}

/// A file without markers becomes a note that is all body, with no frontmatter.
pub proof fn files_without_markers_are_body(
    root: Seq<u8>,
    rel: Seq<char>,
    raw_bytes: Seq<u8>,
    modified: (i64, u32),
)
    requires
        names::plain_text(rel),
        valid_utf8(raw_bytes),
        raw_bytes.len() <= u64::MAX,
        !text::has_prefix(decode_utf8(raw_bytes), seq!['-', '-', '-', '\n']),
    ensures
        note_of(
            root,
            paths::joined(root, encode_utf8(rel)),
            OutcomeData::Read { raw_bytes, modified },
        ) matches Ok((note, odd)) && note.path == rel && note.body == decode_utf8(raw_bytes)
            && note.raw_bytes == raw_bytes && note.last_modified == modified && note.size
            == raw_bytes.len() && note.frontmatter == Map::<Seq<char>, Data>::empty()
            && odd is None,
{
    sources_without_markers_are_body(decode_utf8(raw_bytes));
    names::absolute_path_leads_back(root, rel);
    relative_is_the_path(root, paths::joined(root, encode_utf8(rel)));
    assert(text::trimmed(Seq::<char>::empty()).len() == 0);
}

/// A file that could not be read, one that is not text and one whose
/// frontmatter is not YAML give no note, and each is told as what it is.
/// Frontmatter that is YAML but no mapping is passed over with a warning.
pub proof fn files_that_give_no_note(
    root: Seq<u8>,
    abs: Seq<u8>,
    message: Seq<char>,
    not_found: bool,
    raw_bytes: Seq<u8>,
    modified: (i64, u32),
    front: Seq<char>,
    body: Seq<char>,
)
    requires
        is_front_matter(front),
        text::trimmed(front).len() > 0,
    ensures
        note_of(root, abs, OutcomeData::Failed { message, not_found }) == Err::<
            (NoteData, Option<WarningKindData>),
            IssueKindData,
        >(IssueKindData::Io { message, not_found }),
        !valid_utf8(raw_bytes) ==> note_of(root, abs, OutcomeData::Read { raw_bytes, modified })
            == Err::<(NoteData, Option<WarningKindData>), IssueKindData>(
            IssueKindData::NonUtf8Body,
        ),
        valid_utf8(raw_bytes) && decode_utf8(raw_bytes) == "---\n"@ + front + "---\n"@ + body ==> (
        match outside::yaml(front) {
            Err(e) => note_of(root, abs, OutcomeData::Read { raw_bytes, modified }) == Err::<
                (NoteData, Option<WarningKindData>),
                IssueKindData,
            >(IssueKindData::FrontmatterParse(e)),
            Ok(y) => !(y is Pairs) ==> (note_of(
                root,
                abs,
                OutcomeData::Read { raw_bytes, modified },
            ) matches Ok((note, odd)) ==> note.frontmatter == Map::<Seq<char>, Data>::empty()
                && odd == Some(WarningKindData::FrontmatterNotMapping) && note.body == body),
        }),
{
    markers_part_a_source(front, body);
}

/// Every file of a walk that was wanted and read is accounted for by name: its
/// note is among the notes, or why it gives none among the issues; and what is
/// odd about it among the warnings. A step that failed is among the issues.
pub proof fn scans_miss_nothing(root: Seq<u8>, walk: Seq<WalkData>, i: int)
    requires
        0 <= i < walk.len(),
    ensures
        ({
            let found = scanned(root, walk);
            match walk[i] {
                WalkData::Failed { path, message } => found.issues.contains(
                    IssueData { path, kind: IssueKindData::Io { message, not_found: false } },
                ),
                WalkData::Entry { path, is_file, read } => is_file && paths::is_markdown_path(path)
                    ==> (match read {
                    Some(outcome) => match note_of(root, path, outcome) {
                        Ok((note, odd)) => found.notes.contains(note) && (odd matches Some(kind)
                            ==> found.warnings.contains(WarningData { path, kind })),
                        Err(kind) => found.issues.contains(IssueData { path, kind }),
                    },
                    None => true,
                }),
            }
        }),
    decreases walk.len(),
{
    let rest = walk.drop_last();
    let n = walk.len() - 1;
    let before = scanned(root, rest);
    let found = scanned(root, walk);
    if i < n {
        scans_miss_nothing(root, rest, i);
        assert(rest[i] == walk[i]);
        assert forall|x: NoteData| before.notes.contains(x) implies found.notes.contains(x) by {
            assert(found.notes[before.notes.index_of(x)] == x);
        }
        assert forall|x: IssueData| before.issues.contains(x) implies found.issues.contains(x) by {
            assert(found.issues[before.issues.index_of(x)] == x);
        }
        assert forall|x: WarningData|
            before.warnings.contains(x) implies found.warnings.contains(x) by {
            assert(found.warnings[before.warnings.index_of(x)] == x);
        }
    } else {
        if found.issues.len() > before.issues.len() {
            assert(found.issues.contains(found.issues.last()));
        }
        if found.notes.len() > before.notes.len() {
            assert(found.notes.contains(found.notes.last()));
        }
        if found.warnings.len() > before.warnings.len() {
            assert(found.warnings.contains(found.warnings.last()));
        }
    }
}

/// Directories, files without a Markdown name and files that were not read are
/// passed over.
pub proof fn scans_pass_over_the_rest(
    root: Seq<u8>,
    path: Seq<u8>,
    is_file: bool,
    read: Option<OutcomeData>,
)
    requires
        !is_file || !paths::is_markdown_path(path) || read is None,
    ensures
        ({
            let found = scanned(root, seq![WalkData::Entry { path, is_file, read }]);
            found.notes.len() == 0 && found.issues.len() == 0 && found.warnings.len() == 0
        }),
{
    let one = seq![WalkData::Entry { path, is_file, read }];
    assert(one.drop_last() =~= seq![]);
    assert(scanned(root, seq![]).notes.len() == 0);
}

/// Issues and warnings name what they are about: the message of the failure,
/// the error of the YAML reader, the key whose types drift.
pub proof fn texts_say_what_is_the_matter(
    message: Seq<char>,
    not_found: bool,
    key: Seq<char>,
)
    ensures
        text::is_within(message, issue_text(IssueKindData::Io { message, not_found })),
        text::is_within(message, issue_text(IssueKindData::FrontmatterParse(message))),
        text::is_within(key, warning_text(WarningKindData::TypeDrift(key))),
        issue_text(IssueKindData::NonUtf8Path) != issue_text(IssueKindData::NonUtf8Body),
{
    reveal_strlit("path is not valid UTF-8");
    reveal_strlit("file body is not valid UTF-8");
    assert("path is not valid UTF-8"@.len() != "file body is not valid UTF-8"@.len());
    let none = Seq::<char>::empty();
    text::within_by("io: "@, message, none);
    assert("io: "@ + message + none =~= "io: "@ + message);
    text::within_by("frontmatter YAML parse failed: "@, message, none);
    assert("frontmatter YAML parse failed: "@ + message + none
        =~= "frontmatter YAML parse failed: "@ + message);
    text::within_by("frontmatter key `"@, key, "` has incompatible types across notes"@);
}

/// The walk goes into its start whatever its name is, and below it into
/// everything but what has a dot-prefixed name; of what it meets, files with a
/// Markdown name are read.
pub proof fn walks_leave_out_hidden_names(
    depth: usize,
    name: &[u8],
    goes: bool,
    is_file: bool,
    path: &[u8],
    reads: bool,
)
    requires
        call_ensures(enters, (depth, name), goes),
        call_ensures(wanted, (is_file, path), reads),
    ensures
        depth == 0 ==> goes,
        depth > 0 && valid_utf8(name@) && name@.len() > 0 && name@[0] == 46u8 ==> !goes,
        depth > 0 && name@.len() > 0 && name@[0] != 46u8 ==> goes,
        !is_file ==> !reads,
        is_file ==> (reads <==> paths::is_markdown_path(path@)),
{
}

}
