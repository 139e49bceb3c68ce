//! The HTTP surface: what each request is answered.
//!
//! ```text
//! GET /notes/<path>     a note, as JSON or as the raw file
//! GET /notes/<folder>/  the immediate children of a folder
//! GET /query?...        the notes that a query matches, or their merge
//! GET /health           what the daemon is doing
//! ```

use vstd::prelude::*;

use crate::app::RestartCounters;
use crate::dates;
use crate::dates::Instant;
use crate::fragments;
use crate::headers;
use crate::health;
use crate::health::{HealthData, HealthState, WatcherState};
use crate::json;
use crate::json::{Json, JsonData};
use crate::names;
use crate::outside;
use crate::percent;
use crate::query;
use crate::query::{MergeError, QueryData, QueryResponse};
use crate::sorted;
use crate::sorted::SortedMap;
use crate::store;
use crate::store::NoteStore;
use crate::text;
use crate::text::Order;
use crate::value::Data;
use crate::vault;
use crate::vault::{Note, NoteData};

verus! {

/// The headers of a request that decide its answer, as they were sent.
#[derive(Debug)]
pub struct RequestHeaders {
    /// The values of every `Accept` header.
    pub accept: Vec<Vec<u8>>,
    /// The value of the first `If-None-Match` header.
    pub if_none_match: Option<Vec<u8>>,
}

/// The type of an answer's body.
#[derive(Debug, Clone, Copy, PartialEq, Eq, Structural)]
pub enum ContentType {
    Json,
    Markdown,
    Plain,
}

/// The name of a content type.
pub open spec fn content_type_name(c: ContentType) -> Seq<char> {
    match c {
        ContentType::Json => "application/json"@,
        ContentType::Markdown => "text/markdown; charset=utf-8"@,
        ContentType::Plain => "text/plain; charset=utf-8"@,
    }
}

impl ContentType {
    /// The name that goes into the header.
    pub fn as_str(self) -> (r: &'static str)
        ensures
            r@ == content_type_name(self),
    {
        match self {
            ContentType::Json => "application/json",
            ContentType::Markdown => "text/markdown; charset=utf-8",
            ContentType::Plain => "text/plain; charset=utf-8",
        }
    }
}

/// A note as JSON.
#[derive(Debug)]
pub struct NoteResponse {
    pub path: String,
    pub frontmatter: Json,
    pub body: String,
    pub last_modified: String,
    pub etag: String,
    pub size: u64,
}

/// One child of a folder: a file with its size, or a directory with the time of
/// its latest note.
#[derive(Debug, PartialEq)]
pub struct FolderEntry {
    pub name: String,
    pub is_dir: bool,
    pub last_modified: String,
    pub size: Option<u64>,
}

/// What a [`FolderEntry`] says.
#[verifier::ext_equal]
pub struct EntryData {
    pub name: Seq<char>,
    pub is_dir: bool,
    pub last_modified: Seq<char>,
    pub size: Option<u64>,
}

impl View for FolderEntry {
    type V = EntryData;

    open spec fn view(&self) -> EntryData {
        EntryData {
            name: self.name@,
            is_dir: self.is_dir,
            last_modified: self.last_modified@,
            size: self.size,
        }
    }
}

/// What a list of folder entries says.
pub open spec fn entries_data(v: Seq<FolderEntry>) -> Seq<EntryData> {
    v.map_values(|e: FolderEntry| e@)
}

/// The name of an entry's type.
pub fn entry_type(e: &FolderEntry) -> (r: &'static str)
    ensures
        r@ == if e.is_dir {
            "dir"@
        } else {
            "file"@
        },
{
    if e.is_dir {
        "dir"
    } else {
        "file"
    }
}

/// The children of a folder.
#[derive(Debug)]
pub struct FolderResponse {
    pub path: String,
    pub entries: Vec<FolderEntry>,
}

/// The health report.
#[derive(Debug)]
pub struct HealthResponse {
    pub vault_path: String,
    pub note_count: usize,
    pub last_index_update_ts: Option<String>,
    pub last_event_ts: Option<String>,
    pub watcher_state: &'static str,
    pub in_flight_rescan: bool,
    pub restarts: SortedMap<u32>,
}

/// The body of an answer.
#[derive(Debug)]
pub enum Body {
    Empty,
    Text(String),
    Bytes(Vec<u8>),
    Note(NoteResponse),
    Folder(FolderResponse),
    Query(QueryResponse),
    Health(HealthResponse),
}

/// The answer to a request.
#[derive(Debug)]
pub struct Reply {
    pub status: u16,
    pub content_type: Option<ContentType>,
    pub etag: Option<String>,
    pub body: Body,
}

/// Whether a reply is plain text with a status.
pub open spec fn says(r: Reply, status: u16, said: Seq<char>) -> bool {
    &&& r.status == status
    &&& r.content_type == Some(ContentType::Plain)
    &&& r.etag is None
    &&& r.body is Text && r.body->Text_0@ == said
}

/// Whether a reply refuses a request and says why.
pub open spec fn refuses(r: Reply, reason: Seq<char>) -> bool {
    says(r, 400, "bad request: "@ + reason + "\n"@)
}

/// Whether a reply says that there is nothing there.
pub open spec fn is_missing(r: Reply) -> bool {
    says(r, 404, "not found\n"@)
}

fn bad_request(reason: &str) -> (r: Reply)
    ensures
        refuses(r, reason@),
{
    let mut said = text::concat("bad request: ", reason);
    said.append("\n");
    Reply { status: 400, content_type: Some(ContentType::Plain), etag: None, body: Body::Text(said) }
}

fn not_found() -> (r: Reply)
    ensures
        is_missing(r),
{
    Reply {
        status: 404,
        content_type: Some(ContentType::Plain),
        etag: None,
        body: Body::Text(text::copy_of("not found\n")),
    }
}

/// Whether a segment of a path is refused: an empty one, and steps to the same
/// or to the parent directory.
pub open spec fn forbidden(segment: Seq<char>) -> bool {
    segment.len() == 0 || segment == "."@ || segment == ".."@
}

/// Whether a path has a segment that is refused.
pub open spec fn has_forbidden(path: Seq<char>) -> bool {
    exists|i: int|
        0 <= i < text::split(path, '/').len() && forbidden(#[trigger] text::split(path, '/')[i])
}

/// The vault-relative path that a decoded request path stands for, or why it is
/// refused: it loses its leading slashes. An empty path stands for the vault
/// root where `folder` says that a folder is asked for.
pub open spec fn checked(d: Seq<char>, folder: bool) -> Result<Seq<char>, Seq<char>> {
    let path = text::without_leading(d, '/');
    if path.len() == 0 {
        if folder {
            Ok(seq![])
        } else {
            Err("path is empty"@)
        }
    } else if has_forbidden(path) {
        Err("path contains forbidden segment"@)
    } else {
        Ok(path)
    }
}

/// The vault-relative path that a request path stands for, or why it is
/// refused: it is decoded once, and checked then.
pub open spec fn resolved(raw: Seq<char>, folder: bool) -> Result<Seq<char>, Seq<char>> {
    match percent::decoded(raw, false) {
        None => Err("invalid percent-encoding"@),
        Some(d) => checked(d, folder),
    }
}

/// Whether a resolution came out as `d` says.
pub open spec fn resolution_is(
    r: Result<String, &'static str>,
    d: Result<Seq<char>, Seq<char>>,
) -> bool {
    match (r, d) {
        (Ok(p), Ok(x)) => p@ == x,
        (Err(e), Err(x)) => e@ == x,
        _ => false,
    }
}

fn any_forbidden(path: &str) -> (r: bool)
    ensures
        r == has_forbidden(path@),
{
    let segments = text::split_at_each(path, '/');
    let ghost all = text::views(segments@);
    let mut i: usize = 0;
    while i < segments.len()
        invariant
            i <= segments@.len(),
            all == text::views(segments@),
            all == text::split(path@, '/'),
            forall|j: int| 0 <= j < i ==> !forbidden(#[trigger] all[j]),
        decreases segments@.len() - i,
    {
        let s = segments[i].as_str();
        if s.is_empty() || text::same(s, ".") || text::same(s, "..") {
            assert(forbidden(all[i as int]));
            return true;
        }
        i += 1;
    }
    false
}

fn check_path(decoded: &str, folder: bool) -> (r: Result<String, &'static str>)
    ensures
        resolution_is(r, checked(decoded@, folder)),
{
    let path = text::trim_leading(decoded, '/');
    if path.as_str().is_empty() {
        if !folder {
            return Err("path is empty");
        }
        let root = String::new();
        assert(root@ =~= seq![]);
        return Ok(root);
    }
    if any_forbidden(path.as_str()) {
        return Err("path contains forbidden segment");
    }
    Ok(path)
}

/// Resolves the request path of a note.
pub fn resolve_path(raw: &str) -> (r: Result<String, &'static str>)
    ensures
        resolution_is(r, resolved(raw@, false)),
{
    match percent::percent_decode(raw, false) {
        Some(d) => check_path(d.as_str(), false),
        None => Err("invalid percent-encoding"),
    }
}

/// Resolves the request path of a folder; the empty path is the vault root.
pub fn resolve_folder(raw: &str) -> (r: Result<String, &'static str>)
    ensures
        resolution_is(r, resolved(raw@, true)),
{
    match percent::percent_decode(raw, false) {
        Some(d) => check_path(d.as_str(), true),
        None => Err("invalid percent-encoding"),
    }
}

/// Whether one item of an `Accept` value names Markdown, whatever parameters
/// follow it.
pub open spec fn names_markdown(item: Seq<char>) -> bool {
    text::same_ignoring_case(
        text::trimmed(text::split(item, ';')[0]),
        "text/markdown"@,
    )
}

/// Whether an `Accept` value names Markdown among others.
pub open spec fn accepts_markdown(v: Seq<char>) -> bool {
    exists|i: int|
        0 <= i < text::split(v, ',').len() && names_markdown(#[trigger] text::split(v, ',')[i])
}

/// Whether a header value is text that names Markdown.
pub open spec fn value_accepts_markdown(v: Seq<u8>) -> bool {
    headers::header_text(v) is Some && accepts_markdown(headers::header_text(v)->0)
}

/// Whether a request asks for Markdown.
pub open spec fn markdown_wanted(h: RequestHeaders) -> bool {
    exists|i: int| 0 <= i < h.accept@.len() && value_accepts_markdown((#[trigger] h.accept@[i])@)
}

fn text_accepts_markdown(v: &str) -> (r: bool)
    ensures
        r == accepts_markdown(v@),
{
    let items = text::split_at_each(v, ',');
    let ghost all = text::views(items@);
    let mut i: usize = 0;
    while i < items.len()
        invariant
            i <= items@.len(),
            all == text::views(items@),
            all == text::split(v@, ','),
            forall|j: int| 0 <= j < i ==> !names_markdown(#[trigger] all[j]),
        decreases items@.len() - i,
    {
        let parts = text::split_at_each(items[i].as_str(), ';');
        assert(text::views(parts@)[0] == parts@[0]@);
        let mime = text::trim(parts[0].as_str());
        if text::eq_ignoring_case(mime.as_str(), "text/markdown") {
            assert(names_markdown(all[i as int]));
            return true;
        }
        assert(!names_markdown(all[i as int]));
        i += 1;
    }
    false
}

/// Whether a request asks for Markdown.
pub fn wants_markdown(h: &RequestHeaders) -> (r: bool)
    ensures
        r == markdown_wanted(*h),
{
    let mut i: usize = 0;
    while i < h.accept.len()
        invariant
            i <= h.accept@.len(),
            forall|j: int| 0 <= j < i ==> !value_accepts_markdown((#[trigger] h.accept@[j])@),
        decreases h.accept@.len() - i,
    {
        let found = match headers::read_header(h.accept[i].as_slice()) {
            Some(v) => text_accepts_markdown(v.as_str()),
            None => false,
        };
        assert(found == value_accepts_markdown(h.accept@[i as int]@));
        if found {
            return true;
        }
        i += 1;
    }
    false
}

/// Whether one tag of an `If-None-Match` value stands for an entity tag: it is
/// that tag, weak or not, or the star that stands for any.
pub open spec fn tag_matches(tag: Seq<char>, etag: Seq<char>) -> bool {
    let t = text::trimmed(tag);
    let stripped = match text::after_prefix(t, "W/"@) {
        Some(s) => s,
        None => t,
    };
    stripped == etag || t == "*"@
}

/// Whether an `If-None-Match` value holds a tag that stands for an entity tag.
pub open spec fn some_tag_matches(v: Seq<char>, etag: Seq<char>) -> bool {
    exists|i: int|
        0 <= i < text::split(v, ',').len() && tag_matches(#[trigger] text::split(v, ',')[i], etag)
}

/// Whether a request says that it has the current version already.
pub open spec fn is_current(h: RequestHeaders, etag: Seq<char>) -> bool {
    match headers::optional_header_text(h.if_none_match) {
        Some(v) => some_tag_matches(v, etag),
        None => false,
    }
}

/// Whether an `If-None-Match` value holds a tag that stands for an entity tag.
/// A value that is not text holds none.
pub fn etag_matches(client: &[u8], server_etag: &str) -> (r: bool)
    ensures
        r == (headers::header_text(client@) is Some && some_tag_matches(
            headers::header_text(client@)->0,
            server_etag@,
        )),
{
    let v = match headers::read_header(client) {
        Some(v) => v,
        None => {
            return false;
        },
    };
    let tags = text::split_at_each(v.as_str(), ',');
    let ghost all = text::views(tags@);
    let mut i: usize = 0;
    while i < tags.len()
        invariant
            i <= tags@.len(),
            all == text::views(tags@),
            all == text::split(v@, ','),
            headers::header_text(client@) == Some(v@),
            forall|j: int| 0 <= j < i ==> !tag_matches(#[trigger] all[j], server_etag@),
        decreases tags@.len() - i,
    {
        let t = text::trim(tags[i].as_str());
        let found = text::same(t.as_str(), "*") || match text::strip_prefix(t.as_str(), "W/") {
            Some(s) => text::same(s.as_str(), server_etag),
            None => text::same(t.as_str(), server_etag),
        };
        assert(found == tag_matches(all[i as int], server_etag@));
        if found {
            return true;
        }
        i += 1;
    }
    false
}

/// Whether a response is the JSON form of a note.
pub open spec fn note_shown(r: NoteResponse, note: NoteData) -> bool {
    &&& r.path@ == note.path
    &&& r.frontmatter@ == json::frontmatter_json(note.frontmatter)
    &&& r.body@ == note.body
    &&& r.last_modified@ == outside::utc_text(note.last_modified.0, note.last_modified.1)
    &&& r.etag@ == note.etag
    &&& r.size == note.size
}

/// Whether a reply answers a request for a note: unchanged if the client has it,
/// else the raw file if Markdown is asked for, else JSON. The entity tag comes
/// with each of them.
pub open spec fn note_replied(r: Reply, note: NoteData, h: RequestHeaders) -> bool {
    &&& text::opt_view(r.etag) == Some(note.etag)
    &&& if is_current(h, note.etag) {
        r.status == 304 && r.content_type is None && r.body is Empty
    } else if markdown_wanted(h) {
        r.status == 200 && r.content_type == Some(ContentType::Markdown) && (
        r.body matches Body::Bytes(b) && b@ == note.raw_bytes)
    } else {
        r.status == 200 && r.content_type == Some(ContentType::Json) && (
        r.body matches Body::Note(n) && note_shown(n, note))
    }
}

/// Answers a request for a note that is there.
pub fn respond_note(note: &Note, h: &RequestHeaders) -> (r: Reply)
    ensures
        note_replied(r, note@, *h),
{
    let current = match &h.if_none_match {
        Some(client) => etag_matches(client.as_slice(), note.etag.as_str()),
        None => false,
    };
    if current {
        return Reply {
            status: 304,
            content_type: None,
            etag: Some(note.etag.clone()),
            body: Body::Empty,
        };
    }
    if wants_markdown(h) {
        return Reply {
            status: 200,
            content_type: Some(ContentType::Markdown),
            etag: Some(note.etag.clone()),
            body: Body::Bytes(crate::paths::copy_bytes(note.raw_bytes.as_slice())),
        };
    }
    let shown = NoteResponse {
        path: note.path.clone(),
        frontmatter: json::frontmatter_to_json(&note.frontmatter),
        body: note.body.clone(),
        last_modified: note.last_modified.to_rfc3339(),
        etag: note.etag.clone(),
        size: note.size,
    };
    Reply {
        status: 200,
        content_type: Some(ContentType::Json),
        etag: Some(note.etag.clone()),
        body: Body::Note(shown),
    }
}

/// What a folder has under one name: a file with its time and size, a directory
/// with the time of its latest note, or both.
#[derive(Debug)]
pub struct Child {
    pub file: Option<(Instant, u64)>,
    pub dir: Option<Instant>,
}

/// What a [`Child`] says.
#[verifier::ext_equal]
pub struct ChildData {
    pub file: Option<((i64, u32), u64)>,
    pub dir: Option<(i64, u32)>,
}

impl View for Child {
    type V = ChildData;

    open spec fn view(&self) -> ChildData {
        ChildData {
            file: match self.file {
                Some((t, size)) => Some((t@, size)),
                None => None,
            },
            dir: match self.dir {
                Some(t) => Some(t@),
                None => None,
            },
        }
    }
}

/// What the children of a map say, by name.
pub open spec fn children_data(m: Map<Seq<char>, Child>) -> Map<Seq<char>, ChildData> {
    m.map_values(|c: Child| c@)
}

/// What a folder is known to have under a name so far.
pub open spec fn child_at(c: Map<Seq<char>, ChildData>, name: Seq<char>) -> ChildData {
    if c.contains_key(name) {
        c[name]
    } else {
        ChildData { file: None, dir: None }
    }
}

/// The later of a time and another that may be missing.
pub open spec fn later(a: Option<(i64, u32)>, b: (i64, u32)) -> (i64, u32) {
    match a {
        Some(x) => if dates::instant_order(b, x) == Order::Greater {
            b
        } else {
            x
        },
        None => b,
    }
}

/// The children of a folder after one more note is looked at: a note right in
/// the folder is a file, one further down makes its first segment a directory.
pub open spec fn with_note(
    c: Map<Seq<char>, ChildData>,
    prefix: Seq<char>,
    path: Seq<char>,
    note: NoteData,
) -> Map<Seq<char>, ChildData> {
    match text::after_prefix(path, prefix) {
        None => c,
        Some(rel) => if rel.len() == 0 {
            c
        } else {
            match text::cut(rel, '/') {
                Some((name, _)) => c.insert(
                    name,
                    ChildData {
                        dir: Some(later(child_at(c, name).dir, note.last_modified)),
                        ..child_at(c, name)
                    },
                ),
                None => c.insert(
                    rel,
                    ChildData {
                        file: Some((note.last_modified, note.size)),
                        ..child_at(c, rel)
                    },
                ),
            }
        },
    }
}

/// The children of a folder as far as the notes of some paths show them.
pub open spec fn children_among(
    m: Map<Seq<char>, NoteData>,
    prefix: Seq<char>,
    paths: Seq<Seq<char>>,
) -> Map<Seq<char>, ChildData>
    decreases paths.len(),
{
    if paths.len() == 0 {
        Map::empty()
    } else {
        with_note(
            children_among(m, prefix, paths.drop_last()),
            prefix,
            paths.last(),
            m[paths.last()],
        )
    }
}

/// What the paths in a folder start with.
pub open spec fn folder_prefix(folder: Seq<char>) -> Seq<char> {
    if folder.len() == 0 {
        seq![]
    } else {
        folder + "/"@
    }
}

/// The children of a folder.
pub open spec fn children(m: Map<Seq<char>, NoteData>, folder: Seq<char>) -> Map<
    Seq<char>,
    ChildData,
> {
    children_among(m, folder_prefix(folder), sorted::ascending(m.dom()))
}

/// The entries of one name: the file first, then the directory.
pub open spec fn child_entries(name: Seq<char>, c: ChildData) -> Seq<EntryData> {
    (match c.file {
        Some((t, size)) => seq![
            EntryData {
                name,
                is_dir: false,
                last_modified: outside::utc_text(t.0, t.1),
                size: Some(size),
            },
        ],
        None => seq![],
    }) + (match c.dir {
        Some(t) => seq![
            EntryData { name, is_dir: true, last_modified: outside::utc_text(t.0, t.1), size: None },
        ],
        None => seq![],
    })
}

/// The entries of several names, one after the other.
pub open spec fn entries_among(c: Map<Seq<char>, ChildData>, names: Seq<Seq<char>>) -> Seq<
    EntryData,
>
    decreases names.len(),
{
    if names.len() == 0 {
        seq![]
    } else {
        entries_among(c, names.drop_last()) + child_entries(names.last(), c[names.last()])
    }
}

/// The entries of a folder, in ascending order of their names.
pub open spec fn folder_entries(m: Map<Seq<char>, NoteData>, folder: Seq<char>) -> Seq<EntryData> {
    entries_among(children(m, folder), sorted::ascending(children(m, folder).dom()))
}

/// Whether a reply lists a folder: its entries, or that it is not there. The
/// vault root is always there.
pub open spec fn folder_replied(r: Reply, m: Map<Seq<char>, NoteData>, folder: Seq<char>) -> bool {
    if children(m, folder) == Map::<Seq<char>, ChildData>::empty() && folder.len() > 0 {
        is_missing(r)
    } else {
        &&& r.status == 200
        &&& r.content_type == Some(ContentType::Json)
        &&& r.etag is None
        &&& r.body matches Body::Folder(f) && f.path@ == folder && entries_data(f.entries@)
            == folder_entries(m, folder)
    }
}

fn add_note(found: &mut SortedMap<Child>, prefix: &str, path: &str, note: &Note)
    ensures
        children_data(final(found)@) == with_note(
            children_data(old(found)@),
            prefix@,
            path@,
            note@,
        ),
{
    let ghost before = children_data(found@);
    let rel = match text::strip_prefix(path, prefix) {
        Some(rel) => rel,
        None => {
            return;
        },
    };
    if rel.as_str().is_empty() {
        return;
    }
    match text::split_once(rel.as_str(), '/') {
        Some((name, _)) => {
            let (file, dir) = match found.get(name.as_str()) {
                Some(c) => (c.file, c.dir),
                None => (None, None),
            };
            let latest = match dir {
                Some(t) => match note.last_modified.compare(&t) {
                    Order::Greater => note.last_modified,
                    _ => t,
                },
                None => note.last_modified,
            };
            let child = Child { file, dir: Some(latest) };
            let ghost k = name@;
            let ghost d = child@;
            found.insert(name, child);
            proof {
                assert(children_data(found@) =~= before.insert(k, d));
                assert(d =~= ChildData {
                    dir: Some(later(child_at(before, k).dir, note@.last_modified)),
                    ..child_at(before, k)
                });
            }
        },
        None => {
            let dir = match found.get(rel.as_str()) {
                Some(c) => c.dir,
                None => None,
            };
            let child = Child { file: Some((note.last_modified, note.size)), dir };
            let ghost k = rel@;
            let ghost d = child@;
            found.insert(rel, child);
            proof {
                assert(children_data(found@) =~= before.insert(k, d));
                assert(d =~= ChildData {
                    file: Some((note@.last_modified, note@.size)),
                    ..child_at(before, k)
                });
            }
        },
    }
}

/// Answers a request for a folder: its immediate children, each once as a file
/// and once as a directory at most.
pub fn list_folder(store: &NoteStore, folder: &str) -> (r: Reply)
    ensures
        folder_replied(r, store@, folder@),
{
    let prefix = if folder.is_empty() {
        String::new()
    } else {
        text::concat(folder, "/")
    };
    proof {
        if folder@.len() == 0 {
            assert(prefix@ =~= seq![]);
        }
        assert(prefix@ == folder_prefix(folder@));
    }
    let notes = store.notes();
    let n: usize = notes.len();
    let ghost m = store@;
    let ghost keys = sorted::ascending(m.dom());
    assert(m.dom() =~= notes@.dom());
    let mut found: SortedMap<Child> = SortedMap::new();
    let mut i: usize = 0;
    assert(children_data(found@) =~= children_among(m, prefix@, keys.take(0)));
    while i < n
        invariant
            i <= n == keys.len(),
            m == store::records(notes@),
            keys == sorted::ascending(m.dom()),
            keys == sorted::ascending(notes@.dom()),
            sorted::lists(keys, notes@.dom()),
            children_data(found@) == children_among(m, prefix@, keys.take(i as int)),
        decreases n - i,
    {
        let path = notes.key_at(i);
        let note = notes.value_at(i);
        proof {
            assert(keys.contains(keys[i as int]));
            assert(m[keys[i as int]] == note@);
            assert(keys.take(i + 1).drop_last() =~= keys.take(i as int));
            assert(keys.take(i + 1).last() == keys[i as int]);
        }
        add_note(&mut found, prefix.as_str(), path.as_str(), note);
        i += 1;
    }
    let ghost c = children(m, folder@);
    proof {
        assert(keys.take(n as int) =~= keys);
        assert(children_data(found@) == c);
        assert(c.dom() =~= found@.dom());
        if c == Map::<Seq<char>, ChildData>::empty() {
            assert(found@ =~= Map::<Seq<char>, Child>::empty());
        }
        if found@ == Map::<Seq<char>, Child>::empty() {
            assert(c =~= Map::<Seq<char>, ChildData>::empty());
        }
    }
    if found.is_empty() && !folder.is_empty() {
        return not_found();
    }
    let k: usize = found.len();
    let ghost names = sorted::ascending(c.dom());
    let mut entries: Vec<FolderEntry> = Vec::new();
    let mut j: usize = 0;
    assert(entries_data(entries@) =~= entries_among(c, names.take(0)));
    while j < k
        invariant
            j <= k == names.len(),
            c == children_data(found@),
            names == sorted::ascending(c.dom()),
            names == sorted::ascending(found@.dom()),
            sorted::lists(names, found@.dom()),
            entries_data(entries@) == entries_among(c, names.take(j as int)),
        decreases k - j,
    {
        let name = found.key_at(j);
        let child = found.value_at(j);
        let ghost before = entries_data(entries@);
        proof {
            assert(names.contains(names[j as int]));
            assert(c[names[j as int]] == child@);
            assert(names.take(j + 1).drop_last() =~= names.take(j as int));
            assert(names.take(j + 1).last() == names[j as int]);
        }
        match child.file {
            Some((t, size)) => {
                entries.push(
                    FolderEntry {
                        name: name.clone(),
                        is_dir: false,
                        last_modified: t.to_rfc3339(),
                        size: Some(size),
                    },
                );
            },
            None => {},
        }
        match child.dir {
            Some(t) => {
                entries.push(
                    FolderEntry {
                        name: name.clone(),
                        is_dir: true,
                        last_modified: t.to_rfc3339(),
                        size: None,
                    },
                );
            },
            None => {},
        }
        proof {
            assert(entries_data(entries@) =~= before + child_entries(name@, child@));
        }
        j += 1;
    }
    assert(names.take(k as int) =~= names);
    Reply {
        status: 200,
        content_type: Some(ContentType::Json),
        etag: None,
        body: Body::Folder(FolderResponse { path: text::copy_of(folder), entries }),
    }
}

/// Whether a reply answers a request under `/notes/`. The path is decoded once.
/// One that ends in a slash then, however the slash was written, asks for a
/// folder, any other for a note.
pub open spec fn notes_replied(
    r: Reply,
    m: Map<Seq<char>, NoteData>,
    raw: Seq<char>,
    h: RequestHeaders,
) -> bool {
    match percent::decoded(raw, false) {
        None => refuses(r, "invalid percent-encoding"@),
        Some(d) => if d.len() > 0 && d.last() == '/' {
            match checked(d.drop_last(), true) {
                Err(reason) => refuses(r, reason),
                Ok(folder) => folder_replied(r, m, folder),
            }
        } else {
            match checked(d, false) {
                Err(reason) => refuses(r, reason),
                Ok(path) => if m.contains_key(path) {
                    note_replied(r, m[path], h)
                } else {
                    is_missing(r)
                },
            }
        },
    }
}

/// Answers a request under `/notes/`, given what follows that in the address.
pub fn get_notes(store: &NoteStore, raw: &str, h: &RequestHeaders) -> (r: Reply)
    ensures
        notes_replied(r, store@, raw@, *h),
{
    proof {
        reveal_strlit("/");
        assert("/"@ =~= seq!['/']);
    }
    let path = match percent::percent_decode(raw, false) {
        Some(d) => d,
        None => {
            return bad_request("invalid percent-encoding");
        },
    };
    match text::strip_suffix(path.as_str(), "/") {
        Some(folder) => {
            proof {
                assert(path@.skip(path@.len() - 1)[0] == '/');
                assert(folder@ =~= path@.drop_last());
            }
            match check_path(folder.as_str(), true) {
                Err(reason) => bad_request(reason),
                Ok(canonical) => list_folder(store, canonical.as_str()),
            }
        },
        None => {
            proof {
                if path@.len() > 0 && path@.last() == '/' {
                    assert(path@.skip(path@.len() - 1) =~= seq!['/']);
                }
            }
            match check_path(path.as_str(), false) {
                Err(reason) => bad_request(reason),
                Ok(canonical) => match store.get(canonical.as_str()) {
                    None => not_found(),
                    Some(note) => respond_note(&note, h),
                },
            }
        },
    }
}

/// Answers a request for the vault root as a folder.
pub fn list_root_folder(store: &NoteStore) -> (r: Reply)
    ensures
        folder_replied(r, store@, seq![]),
{
    let root = String::new();
    assert(root@ =~= seq![]);
    list_folder(store, root.as_str())
}

/// Whether a reply answers a query: the rows as JSON, or the merge if Markdown
/// is asked for; a merge that the guard refuses is a bad request.
pub open spec fn query_replied(
    r: Reply,
    m: Map<Seq<char>, NoteData>,
    q: QueryData,
    h: RequestHeaders,
) -> bool {
    if markdown_wanted(h) {
        if query::merge_refused(m, q) {
            refuses(
                r,
                fragments::guard_refusal(q.kind_key->0, query::matched_fragments(m, q)),
            )
        } else {
            &&& r.status == 200
            &&& r.content_type == Some(ContentType::Markdown)
            &&& r.etag is None
            &&& r.body matches Body::Text(doc) && query::is_merge(doc@, m, q)
        }
    } else {
        &&& r.status == 200
        &&& r.content_type == Some(ContentType::Json)
        &&& r.etag is None
        &&& r.body matches Body::Query(response) && query::answers(
            response,
            m,
            q,
            query::rfc3339_z,
        )
    }
}

/// Whether a reply answers a query string: one that is refused is a bad request.
pub open spec fn query_string_replied<F: Fn(&str) -> Option<u64>>(
    r: Reply,
    m: Map<Seq<char>, NoteData>,
    raw: Seq<char>,
    h: RequestHeaders,
    read: F,
) -> bool {
    match query::parsed(raw) {
        Err(e) => refuses(r, query::error_text(e)),
        Ok(p) => exists|q: QueryData| #[trigger]
            query::numbers_filled(q, p, read) && query_replied(r, m, q, h),
    }
}

/// Answers a query, given its string. The doubles that values read as come from
/// `read`.
pub fn get_query<F>(store: &NoteStore, raw: &str, h: &RequestHeaders, read: F) -> (r: Reply) where
    F: Fn(&str) -> Option<u64>,

    requires
        forall|s: &str| #[trigger] call_requires(read, (s,)),
    ensures
        query_string_replied(r, store@, raw@, *h, read),
{
    let parsed = match query::parse_reading(raw, read) {
        Ok(q) => q,
        Err(e) => {
            return bad_request(e.message().as_str());
        },
    };
    if wants_markdown(h) {
        return match query::execute_merge(store, &parsed) {
            Ok(doc) => Reply {
                status: 200,
                content_type: Some(ContentType::Markdown),
                etag: None,
                body: Body::Text(doc),
            },
            Err(MergeError::KindGuard(message)) => bad_request(message.as_str()),
        };
    }
    Reply {
        status: 200,
        content_type: Some(ContentType::Json),
        etag: None,
        body: Body::Query(query::execute(store, &parsed, query::rfc3339_z)),
    }
}

/// What is asked of the notes.
#[derive(Debug)]
pub enum Asked {
    /// A note or a folder, by what follows `/notes/` in the address.
    Notes(String),
    /// The vault root as a folder.
    Root,
    /// The rows or the merge of a query, by its string.
    Query(String),
}

/// Whether a reply says that the notes are not there yet.
pub open spec fn is_not_ready(r: Reply) -> bool {
    says(r, 503, "index not ready, retry shortly\n"@)
}

/// Answers what is asked of the notes. Until a first scan of the vault has been
/// put into the store, the answer is that the index is not ready: that a note
/// is missing could not be told from that it is not known yet.
pub fn answer<F>(store: &NoteStore, asked: &Asked, h: &RequestHeaders, read: F) -> (r: Reply) where
    F: Fn(&str) -> Option<u64>,

    requires
        forall|s: &str| #[trigger] call_requires(read, (s,)),
    ensures
        if !store.loaded() {
            is_not_ready(r)
        } else {
            match asked {
                Asked::Notes(raw) => notes_replied(r, store@, raw@, *h),
                Asked::Root => folder_replied(r, store@, seq![]),
                Asked::Query(raw) => query_string_replied(r, store@, raw@, *h, read),
            }
        },
{
    if !store.is_loaded() {
        return Reply {
            status: 503,
            content_type: Some(ContentType::Plain),
            etag: None,
            body: Body::Text(text::copy_of("index not ready, retry shortly\n")),
        };
    }
    match asked {
        Asked::Notes(raw) => get_notes(store, raw.as_str(), h),
        Asked::Root => list_root_folder(store),
        Asked::Query(raw) => get_query(store, raw.as_str(), h, read),
    }
}

/// The text of an instant that may be missing.
pub open spec fn optional_time(t: Option<(i64, u32)>) -> Option<Seq<char>> {
    match t {
        Some(x) => Some(outside::utc_text(x.0, x.1)),
        None => None,
    }
}

/// Whether a report shows the state of the daemon.
pub open spec fn health_shown(
    r: HealthResponse,
    m: Map<Seq<char>, NoteData>,
    h: HealthData,
    counters: RestartCounters,
    vault: Seq<u8>,
) -> bool {
    &&& r.vault_path@ == outside::lossy(vault)
    &&& r.note_count == sorted::ascending(m.dom()).len()
    &&& text::opt_view(r.last_index_update_ts) == optional_time(
        health::stored_instant(h.last_index_update_ms),
    )
    &&& text::opt_view(r.last_event_ts) == optional_time(health::stored_instant(h.last_event_ms))
    &&& r.watcher_state@ == health::state_name(h.watcher_state)
    &&& r.in_flight_rescan == h.in_flight_rescan
    &&& r.restarts@.map_values(|n: u32| n as nat) == crate::app::counts(counters)
}

fn write_time(t: Option<Instant>) -> (r: Option<String>)
    ensures
        text::opt_view(r) == optional_time(
            match t {
                Some(x) => Some(x@),
                None => None,
            },
        ),
{
    match t {
        Some(x) => Some(x.to_rfc3339()),
        None => None,
    }
}

/// Answers a request for the health report: always, while the daemon is up.
pub fn get_health(
    store: &NoteStore,
    health: &HealthState,
    counters: &RestartCounters,
    vault: &[u8],
) -> (r: Reply)
    ensures
        r.status == 200,
        r.content_type == Some(ContentType::Json),
        r.etag is None,
        r.body matches Body::Health(report) && health_shown(
            report,
            store@,
            health@,
            *counters,
            vault@,
        ),
{
    let report = HealthResponse {
        vault_path: outside::lossy_text(vault),
        note_count: store.len(),
        last_index_update_ts: write_time(health.last_index_update()),
        last_event_ts: write_time(health.last_event()),
        watcher_state: health.watcher_state().as_str(),
        in_flight_rescan: health.in_flight_rescan(),
        restarts: counters.snapshot(),
    };
    Reply {
        status: 200,
        content_type: Some(ContentType::Json),
        etag: None,
        body: Body::Health(report),
    }
}

// -- laws -------------------------------------------------------------------

/// A client that sends back the entity tag of a note, strong or weak, or the
/// star, is told that nothing has changed, and gets no body.
pub proof fn known_tag_is_not_modified(r: Reply, note: NoteData, h: RequestHeaders, v: Seq<char>)
    requires
        vault::is_strong_tag(note.etag),
        headers::optional_header_text(h.if_none_match) == Some(v),
        v == note.etag || v == "W/"@ + note.etag || v == "*"@,
        note_replied(r, note, h),
    ensures
        r.status == 304,
        r.body is Empty,
        text::opt_view(r.etag) == Some(note.etag),
{
    let e = note.etag;
    reveal_strlit("W/");
    reveal_strlit("*");
    assert(!v.contains(',')) by {
        if v.contains(',') {
            let i = v.index_of(',');
            if v == e {
                assert(e.contains(','));
            } else if v == "W/"@ + e {
                assert(v[i] == ',');
                if i >= 2 {
                    assert(e[i - 2] == ',');
                    assert(e.contains(','));
                }
            }
        }
    }
    single_piece(v, ',');
    assert(text::split(v, ',')[0] == v);
    ends_stay(v);
    if v == e {
        assert(!text::has_prefix(v, "W/"@)) by {
            if text::has_prefix(v, "W/"@) {
                assert(v.take(2)[0] == v[0]);
            }
        }
    } else if v == "W/"@ + e {
        assert(v.take(2) =~= "W/"@);
        assert(v.skip(2) =~= e);
    }
    assert(tag_matches(text::split(v, ',')[0], e));
    assert(some_tag_matches(v, e));
}

proof fn single_piece(s: Seq<char>, c: char)
    requires
        !s.contains(c),
    ensures
        text::split(s, c) == seq![s],
{
    assert forall|j: int| 0 <= j < s.len() implies s[j] != c by {
        assert(s.contains(s[j]));
    }
    text::before_is(s, c, s.len());
}

proof fn ends_stay(s: Seq<char>)
    requires
        s.len() > 0,
        !text::is_white(s[0]),
        !text::is_white(s.last()),
    ensures
        text::trimmed(s) == s,
{
}

/// What a request path resolves to has no empty segment, no `.` and no `..`,
/// and does not start with a slash.
pub proof fn resolved_path_stays_inside(raw: Seq<char>, folder: bool, path: Seq<char>)
    requires
        resolved(raw, folder) == Ok::<Seq<char>, Seq<char>>(path),
    ensures
        path.len() > 0 ==> path[0] != '/' && !has_forbidden(path),
        !folder ==> path.len() > 0,
{
    match percent::decoded(raw, false) {
        Some(d) => {
            leading_is_gone(d, '/');
        },
        None => {},
    }
}

proof fn leading_is_gone(s: Seq<char>, c: char)
    ensures
        text::without_leading(s, c).len() > 0 ==> text::without_leading(s, c)[0] != c,
    decreases s.len(),
{
    if s.len() > 0 && s[0] == c {
        leading_is_gone(s.drop_first(), c);
    }
}

/// A decoded request path without the slash that asks for a folder.
pub open spec fn asked_path(d: Seq<char>) -> Seq<char> {
    if d.len() > 0 && d.last() == '/' {
        d.drop_last()
    } else {
        d
    }
}

/// A request path with a `..` in it is refused, as a note and as a folder.
pub proof fn parent_steps_are_refused(
    r: Reply,
    m: Map<Seq<char>, NoteData>,
    raw: Seq<char>,
    h: RequestHeaders,
    i: int,
)
    requires
        notes_replied(r, m, raw, h),
        percent::decoded(raw, false) matches Some(d) && ({
            let segments = text::split(text::without_leading(asked_path(d), '/'), '/');
            0 <= i < segments.len() && segments[i] == ".."@
        }),
    ensures
        r.status == 400,
{
    reveal_strlit("..");
    let d = asked_path(percent::decoded(raw, false)->0);
    let path = text::without_leading(d, '/');
    let segments = text::split(path, '/');
    assert(forbidden(segments[i]));
    if path.len() == 0 {
        text::before_bounds(path, '/');
        assert(segments =~= seq![path]);
    }
}

/// Whether a path is that of a file right in a folder.
pub open spec fn is_file_child(path: Seq<char>, prefix: Seq<char>, name: Seq<char>) -> bool {
    path == prefix + name && name.len() > 0 && !name.contains('/')
}

/// Whether a path lies under a directory of a folder.
pub open spec fn is_in_dir_child(path: Seq<char>, prefix: Seq<char>, name: Seq<char>) -> bool {
    text::has_prefix(path, prefix + name + "/"@) && !name.contains('/')
}

#[verifier::rlimit(30)]
proof fn child_kinds(path: Seq<char>, prefix: Seq<char>, name: Seq<char>)
    ensures
        is_file_child(path, prefix, name) <==> text::after_prefix(path, prefix) == Some(name)
            && name.len() > 0 && text::cut(name, '/') is None,
        is_in_dir_child(path, prefix, name) <==> (text::after_prefix(path, prefix) matches Some(
            rel,
        ) && rel.len() > 0 && (text::cut(rel, '/') matches Some(x) && x.0 == name)),
{
    reveal_strlit("/");
    text::before_bounds(name, '/');
    let k = text::before(name, '/');
    if name.contains('/') {
        let i = name.index_of('/');
        assert(name[i] == '/');
    } else if k < name.len() {
        assert(name.contains(name[k as int]));
    }
    if path == prefix + name {
        assert(path.take(prefix.len() as int) =~= prefix);
        assert(path.skip(prefix.len() as int) =~= name);
    }
    if text::after_prefix(path, prefix) == Some(name) {
        assert(path =~= prefix + name);
    }
    let full = prefix + name + "/"@;
    if is_in_dir_child(path, prefix, name) {
        let n = full.len() as int;
        assert(path.take(n) == full);
        assert(path.take(prefix.len() as int) =~= full.take(prefix.len() as int));
        assert(full.take(prefix.len() as int) =~= prefix);
        let rel = path.skip(prefix.len() as int);
        assert forall|j: int| 0 <= j < name.len() implies rel[j] == name[j] by {
            assert(path.take(n)[prefix.len() + j] == full[prefix.len() + j]);
        }
        assert(rel[name.len() as int] == '/') by {
            assert(path.take(n)[n - 1] == full[n - 1]);
        }
        assert forall|j: int| 0 <= j < name.len() implies rel[j] != '/' by {
            assert(name.contains(name[j]));
        }
        text::before_is(rel, '/', name.len());
        assert(rel.take(name.len() as int) =~= name);
    }
    match text::after_prefix(path, prefix) {
        Some(rel) => {
            text::before_bounds(rel, '/');
            let b = text::before(rel, '/');
            if b < rel.len() && rel.take(b as int) == name {
                assert(path =~= prefix + rel);
                assert(rel =~= name + "/"@ + rel.skip(b as int + 1));
                assert(path.take(full.len() as int) =~= full);
                if name.contains('/') {
                    let i = name.index_of('/');
                    assert(rel[i] == name[i]);
                }
            }
        },
        None => {},
    }
}

/// The children of a folder are exactly its immediate ones: a name is listed as
/// a file if a note of that name is right in the folder, and as a directory if
/// a note lies further down under it.
pub proof fn children_are_immediate(
    m: Map<Seq<char>, NoteData>,
    prefix: Seq<char>,
    paths: Seq<Seq<char>>,
    name: Seq<char>,
)
    ensures
        child_at(children_among(m, prefix, paths), name).file is Some <==> exists|i: int|
            0 <= i < paths.len() && is_file_child(#[trigger] paths[i], prefix, name),
        child_at(children_among(m, prefix, paths), name).dir is Some <==> exists|i: int|
            0 <= i < paths.len() && is_in_dir_child(#[trigger] paths[i], prefix, name),
        children_among(m, prefix, paths).contains_key(name) <==> child_at(
            children_among(m, prefix, paths),
            name,
        ).file is Some || child_at(children_among(m, prefix, paths), name).dir is Some,
    decreases paths.len(),
{
    if paths.len() > 0 {
        let rest = paths.drop_last();
        let last = paths[paths.len() - 1];
        children_are_immediate(m, prefix, rest, name);
        child_kinds(last, prefix, name);
        assert forall|i: int| 0 <= i < rest.len() implies rest[i] == #[trigger] paths[i] by {}
        if exists|i: int| 0 <= i < rest.len() && is_file_child(#[trigger] rest[i], prefix, name) {
            let i = choose|i: int|
                0 <= i < rest.len() && is_file_child(#[trigger] rest[i], prefix, name);
            assert(is_file_child(paths[i], prefix, name));
        }
        if exists|i: int| 0 <= i < rest.len() && is_in_dir_child(#[trigger] rest[i], prefix, name) {
            let i = choose|i: int|
                0 <= i < rest.len() && is_in_dir_child(#[trigger] rest[i], prefix, name);
            assert(is_in_dir_child(paths[i], prefix, name));
        }
        if exists|i: int| 0 <= i < paths.len() && is_file_child(#[trigger] paths[i], prefix, name) {
            let i = choose|i: int|
                0 <= i < paths.len() && is_file_child(#[trigger] paths[i], prefix, name);
            if i < rest.len() {
                assert(is_file_child(rest[i], prefix, name));
            }
        }
        if exists|i: int|
            0 <= i < paths.len() && is_in_dir_child(#[trigger] paths[i], prefix, name) {
            let i = choose|i: int|
                0 <= i < paths.len() && is_in_dir_child(#[trigger] paths[i], prefix, name);
            if i < rest.len() {
                assert(is_in_dir_child(rest[i], prefix, name));
            }
        }
    }
}

/// The time of a directory is that of its latest note: no note in it is later.
pub proof fn directory_time_is_the_latest(
    m: Map<Seq<char>, NoteData>,
    prefix: Seq<char>,
    paths: Seq<Seq<char>>,
    name: Seq<char>,
    i: int,
)
    requires
        0 <= i < paths.len(),
        is_in_dir_child(paths[i], prefix, name),
    ensures
        child_at(children_among(m, prefix, paths), name).dir is Some,
        dates::instant_order(
            m[paths[i]].last_modified,
            child_at(children_among(m, prefix, paths), name).dir->0,
        ) != Order::Greater,
    decreases paths.len(),
{
    let rest = paths.drop_last();
    let last = paths[paths.len() - 1];
    child_kinds(last, prefix, name);
    if i < rest.len() {
        assert(rest[i] == paths[i]);
        directory_time_is_the_latest(m, prefix, rest, name, i);
    }
}

/// The offline merge is the served one: for the same notes and query, the
/// document that the server sends and the one that is written offline are the
/// same.
pub proof fn offline_merge_is_the_served_one(
    r: Reply,
    offline: Seq<char>,
    m: Map<Seq<char>, NoteData>,
    q: QueryData,
    h: RequestHeaders,
)
    requires
        markdown_wanted(h),
        !query::merge_refused(m, q),
        query_replied(r, m, q, h),
        query::is_merge(offline, m, q),
    ensures
        r.body is Text,
        r.body->Text_0@ == offline,
{
}

/// The offline rows are the served ones: two responses to the same query over
/// the same notes have the same rows, the same total and the same mark of
/// being cut.
pub proof fn offline_rows_are_the_served_ones(
    a: QueryResponse,
    b: QueryResponse,
    m: Map<Seq<char>, NoteData>,
    q: QueryData,
    i: int,
)
    requires
        query::answers(a, m, q, query::rfc3339_z),
        query::answers(b, m, q, query::rfc3339_z),
        0 <= i < a.results@.len(),
    ensures
        a.total == b.total,
        a.truncated == b.truncated,
        a.results@.len() == b.results@.len(),
        a.results@[i].path@ == b.results@[i].path@,
        a.results@[i].frontmatter@ == b.results@[i].frontmatter@,
        a.results@[i].last_modified@ == b.results@[i].last_modified@,
        a.results@[i].etag@ == b.results@[i].etag@,
        a.results@[i].size == b.results@[i].size,
{
    let note = m[query::matching(m, q)[i]];
    assert(query::shows(a.results@[i], note, query::rfc3339_z));
    assert(query::shows(b.results@[i], note, query::rfc3339_z));
}

/// The path of what stands right in a folder under a name.
pub open spec fn path_in(folder: Seq<char>, name: Seq<char>) -> Seq<char> {
    if folder.len() == 0 {
        name
    } else {
        folder + seq!['/'] + name
    }
}

/// Whether a path lies under a name in a folder.
pub open spec fn lies_under(path: Seq<char>, folder: Seq<char>, name: Seq<char>) -> bool {
    exists|rest: Seq<char>| path == #[trigger] (path_in(folder, name) + seq!['/'] + rest)
}

/// Whether a note is not later than an instant, in seconds first and
/// nanoseconds next.
pub open spec fn no_later(note: NoteData, t: (i64, u32)) -> bool {
    note.last_modified.0 < t.0 || (note.last_modified.0 == t.0 && note.last_modified.1 <= t.1)
}

/// Whether an entry shows a note as a file.
pub open spec fn shows_file(e: FolderEntry, name: Seq<char>, note: NoteData) -> bool {
    &&& e.name@ == name
    &&& !e.is_dir
    &&& e.last_modified@ == outside::utc_text(note.last_modified.0, note.last_modified.1)
    &&& e.size == Some(note.size)
}

/// Whether an entry shows a directory with the time of its latest note, which
/// is that at `path`.
pub open spec fn shows_dir(
    e: FolderEntry,
    m: Map<Seq<char>, NoteData>,
    folder: Seq<char>,
    name: Seq<char>,
    path: Seq<char>,
) -> bool {
    &&& e.name@ == name
    &&& e.is_dir
    &&& e.size is None
    &&& m.contains_key(path)
    &&& lies_under(path, folder, name)
    &&& e.last_modified@ == outside::utc_text(m[path].last_modified.0, m[path].last_modified.1)
    &&& forall|p: Seq<char>|
        #[trigger] m.contains_key(p) && lies_under(p, folder, name) ==> no_later(
            m[p],
            m[path].last_modified,
        )
}

proof fn children_kinds(path: Seq<char>, folder: Seq<char>, name: Seq<char>)
    requires
        !name.contains('/'),
    ensures
        is_file_child(path, folder_prefix(folder), name) <==> path == path_in(folder, name)
            && name.len() > 0,
        is_in_dir_child(path, folder_prefix(folder), name) <==> lies_under(path, folder, name),
{
    reveal_strlit("/");
    let pre = folder_prefix(folder);
    assert("/"@ =~= seq!['/']);
    assert(pre + name =~= path_in(folder, name));
    let full = pre + name + "/"@;
    let also = path_in(folder, name) + seq!['/'];
    assert(full =~= also);
    if text::has_prefix(path, full) {
        assert(path =~= also + path.skip(full.len() as int));
    }
    if lies_under(path, folder, name) {
        let rest = choose|rest: Seq<char>|
            path == #[trigger] (path_in(folder, name) + seq!['/'] + rest);
        assert(path.take(full.len() as int) =~= full);
    }
}

proof fn file_is_the_note(
    m: Map<Seq<char>, NoteData>,
    prefix: Seq<char>,
    paths: Seq<Seq<char>>,
    name: Seq<char>,
)
    ensures
        child_at(children_among(m, prefix, paths), name).file matches Some(x) ==> paths.contains(
            prefix + name,
        ) && x == (m[prefix + name].last_modified, m[prefix + name].size) && is_file_child(
            prefix + name,
            prefix,
            name,
        ),
    decreases paths.len(),
{
    if paths.len() > 0 {
        let rest = paths.drop_last();
        let last = paths[paths.len() - 1];
        file_is_the_note(m, prefix, rest, name);
        child_kinds(last, prefix, name);
        if rest.contains(prefix + name) {
            let i = rest.index_of(prefix + name);
            assert(paths[i] == prefix + name);
        }
    }
}

proof fn dir_time_is_of_a_note(
    m: Map<Seq<char>, NoteData>,
    prefix: Seq<char>,
    paths: Seq<Seq<char>>,
    name: Seq<char>,
)
    ensures
        child_at(children_among(m, prefix, paths), name).dir matches Some(t) ==> exists|i: int|
            0 <= i < paths.len() && is_in_dir_child(#[trigger] paths[i], prefix, name)
                && m[paths[i]].last_modified == t,
    decreases paths.len(),
{
    if paths.len() > 0 {
        let rest = paths.drop_last();
        let last = paths[paths.len() - 1];
        dir_time_is_of_a_note(m, prefix, rest, name);
        child_kinds(last, prefix, name);
        let before = child_at(children_among(m, prefix, rest), name).dir;
        let now = child_at(children_among(m, prefix, paths), name).dir;
        if now is Some {
            if before == now {
                let i = choose|i: int|
                    0 <= i < rest.len() && is_in_dir_child(#[trigger] rest[i], prefix, name)
                        && m[rest[i]].last_modified == before->0;
                assert(paths[i] == rest[i]);
            } else {
                assert(is_in_dir_child(last, prefix, name));
                assert(now->0 == m[last].last_modified);
            }
        }
    }
}

proof fn children_are_finite(
    m: Map<Seq<char>, NoteData>,
    prefix: Seq<char>,
    paths: Seq<Seq<char>>,
)
    ensures
        children_among(m, prefix, paths).dom().finite(),
    decreases paths.len(),
{
    if paths.len() > 0 {
        children_are_finite(m, prefix, paths.drop_last());
    }
}

/// Where an entry is listed among those of several names.
spec fn listed_among(
    c: Map<Seq<char>, ChildData>,
    names: Seq<Seq<char>>,
    e: EntryData,
) -> bool {
    names.contains(e.name) && child_entries(e.name, c[e.name]).contains(e)
}

proof fn entries_are_of_names(
    c: Map<Seq<char>, ChildData>,
    names: Seq<Seq<char>>,
    e: EntryData,
)
    ensures
        entries_among(c, names).contains(e) <==> listed_among(c, names, e),
    decreases names.len(),
{
    if names.len() > 0 {
        let rest = names.drop_last();
        let last = names.last();
        entries_are_of_names(c, rest, e);
        let a = entries_among(c, rest);
        let b = child_entries(last, c[last]);
        let all = entries_among(c, names);
        if all.contains(e) {
            let i = all.index_of(e);
            if i < a.len() {
                assert(a[i] == e);
                assert(a.contains(e));
                let k = rest.index_of(e.name);
                assert(names[k] == e.name);
            } else {
                assert(b[i - a.len()] == e);
                assert(names[names.len() - 1] == e.name);
                assert(child_entries(e.name, c[e.name]).contains(e));
            }
        }
        if listed_among(c, names, e) {
            let k = names.index_of(e.name);
            if k < rest.len() {
                assert(rest[k] == e.name);
                assert(rest.contains(e.name));
                assert(a.contains(e));
                assert(all[a.index_of(e)] == e);
            } else {
                let i = b.index_of(e);
                assert(b.contains(e));
                assert(all[a.len() + i] == e);
            }
        }
    } else {
        assert(!names.contains(e.name));
    }
}

/// A note right in a folder is listed: the entry of its name that is no
/// directory has its time and its size.
pub proof fn notes_in_a_folder_are_listed(
    r: Reply,
    m: Map<Seq<char>, NoteData>,
    folder: Seq<char>,
    name: Seq<char>,
)
    requires
        m.dom().finite(),
        folder_replied(r, m, folder),
        name.len() > 0,
        !name.contains('/'),
        m.contains_key(path_in(folder, name)),
    ensures
        r.status == 200,
        r.body is Folder,
        r.body->Folder_0.path@ == folder,
        exists|i: int|
            0 <= i < r.body->Folder_0.entries@.len() && shows_file(
                #[trigger] r.body->Folder_0.entries@[i],
                name,
                m[path_in(folder, name)],
            ),
{
    let pre = folder_prefix(folder);
    let path = path_in(folder, name);
    let keys = sorted::ascending(m.dom());
    let c = children(m, folder);
    let names = sorted::ascending(c.dom());
    sorted::finite_sets_are_listed(m.dom());
    children_are_finite(m, pre, keys);
    sorted::finite_sets_are_listed(c.dom());
    children_kinds(path, folder, name);
    assert(pre + name == path);
    let i = keys.index_of(path);
    assert(m.dom().contains(path));
    assert(is_file_child(keys[i], pre, name));
    children_are_immediate(m, pre, keys, name);
    file_is_the_note(m, pre, keys, name);
    assert(c.contains_key(name));
    let x = c[name].file->0;
    let e = EntryData {
        name,
        is_dir: false,
        last_modified: outside::utc_text(x.0.0, x.0.1),
        size: Some(x.1),
    };
    assert(child_entries(name, c[name])[0] == e);
    assert(c.dom().contains(name));
    entries_are_of_names(c, names, e);
    let entries = r.body->Folder_0.entries@;
    let k = entries_data(entries).index_of(e);
    assert(entries_data(entries)[k] == entries[k]@);
    assert(shows_file(entries[k], name, m[path]));
}

proof fn dir_shown(m: Map<Seq<char>, NoteData>, folder: Seq<char>, name: Seq<char>)
    requires
        m.dom().finite(),
        !name.contains('/'),
        child_at(children(m, folder), name).dir is Some,
    ensures
        ({
            let t = child_at(children(m, folder), name).dir->0;
            exists|p: Seq<char>|
                #[trigger] m.contains_key(p) && lies_under(p, folder, name) && m[p].last_modified
                    == t && forall|q: Seq<char>|
                    #[trigger] m.contains_key(q) && lies_under(q, folder, name) ==> no_later(
                        m[q],
                        t,
                    )
        }),
{
    let pre = folder_prefix(folder);
    let keys = sorted::ascending(m.dom());
    let t = child_at(children(m, folder), name).dir->0;
    sorted::finite_sets_are_listed(m.dom());
    dir_time_is_of_a_note(m, pre, keys, name);
    let i = choose|i: int|
        0 <= i < keys.len() && is_in_dir_child(#[trigger] keys[i], pre, name)
            && m[keys[i]].last_modified == t;
    assert(keys.contains(keys[i]));
    assert(m.dom().contains(keys[i]));
    children_kinds(keys[i], folder, name);
    assert forall|q: Seq<char>|
        #[trigger] m.contains_key(q) && lies_under(q, folder, name) implies no_later(m[q], t) by {
        children_kinds(q, folder, name);
        assert(m.dom().contains(q));
        let j = keys.index_of(q);
        directory_time_is_the_latest(m, pre, keys, name, j);
    }
}

/// A directory of a folder is listed once some note lies under it: its entry
/// has no size, and the time of the latest of those notes.
pub proof fn directories_in_a_folder_are_listed(
    r: Reply,
    m: Map<Seq<char>, NoteData>,
    folder: Seq<char>,
    name: Seq<char>,
    path: Seq<char>,
)
    requires
        m.dom().finite(),
        folder_replied(r, m, folder),
        !name.contains('/'),
        m.contains_key(path),
        lies_under(path, folder, name),
    ensures
        r.status == 200,
        r.body is Folder,
        r.body->Folder_0.path@ == folder,
        exists|i: int, p: Seq<char>|
            0 <= i < r.body->Folder_0.entries@.len() && #[trigger] shows_dir(
                r.body->Folder_0.entries@[i],
                m,
                folder,
                name,
                p,
            ),
{
    let pre = folder_prefix(folder);
    let keys = sorted::ascending(m.dom());
    let c = children(m, folder);
    let names = sorted::ascending(c.dom());
    sorted::finite_sets_are_listed(m.dom());
    children_are_finite(m, pre, keys);
    sorted::finite_sets_are_listed(c.dom());
    children_kinds(path, folder, name);
    assert(m.dom().contains(path));
    let i = keys.index_of(path);
    assert(is_in_dir_child(keys[i], pre, name));
    children_are_immediate(m, pre, keys, name);
    assert(c.contains_key(name));
    let t = c[name].dir->0;
    dir_shown(m, folder, name);
    let p = choose|p: Seq<char>|
        #[trigger] m.contains_key(p) && lies_under(p, folder, name) && m[p].last_modified == t
            && forall|q: Seq<char>|
            #[trigger] m.contains_key(q) && lies_under(q, folder, name) ==> no_later(m[q], t);
    let e = EntryData {
        name,
        is_dir: true,
        last_modified: outside::utc_text(t.0, t.1),
        size: None,
    };
    assert(child_entries(name, c[name]).last() == e);
    assert(c.dom().contains(name));
    entries_are_of_names(c, names, e);
    let entries = r.body->Folder_0.entries@;
    let k = entries_data(entries).index_of(e);
    assert(entries_data(entries)[k] == entries[k]@);
    assert(shows_dir(entries[k], m, folder, name, p));
}

proof fn child_names_have_no_slash(
    m: Map<Seq<char>, NoteData>,
    prefix: Seq<char>,
    paths: Seq<Seq<char>>,
    name: Seq<char>,
)
    requires
        children_among(m, prefix, paths).contains_key(name),
    ensures
        !name.contains('/'),
{
    children_are_immediate(m, prefix, paths, name);
    let c = child_at(children_among(m, prefix, paths), name);
    if c.file is Some {
        let i = choose|i: int|
            0 <= i < paths.len() && is_file_child(#[trigger] paths[i], prefix, name);
        assert(is_file_child(paths[i], prefix, name));
    } else {
        let i = choose|i: int|
            0 <= i < paths.len() && is_in_dir_child(#[trigger] paths[i], prefix, name);
        assert(is_in_dir_child(paths[i], prefix, name));
    }
}

/// A listing shows nothing else: each of its entries is that of a note right in
/// the folder or that of a directory with a note under it.
pub proof fn listings_show_nothing_else(
    r: Reply,
    m: Map<Seq<char>, NoteData>,
    folder: Seq<char>,
    i: int,
)
    requires
        m.dom().finite(),
        folder_replied(r, m, folder),
        r.body is Folder,
        0 <= i < r.body->Folder_0.entries@.len(),
    ensures
        ({
            let e = r.body->Folder_0.entries@[i];
            &&& !e.name@.contains('/')
            &&& !e.is_dir ==> m.contains_key(path_in(folder, e.name@)) && shows_file(
                e,
                e.name@,
                m[path_in(folder, e.name@)],
            )
            &&& e.is_dir ==> exists|p: Seq<char>| #[trigger] shows_dir(e, m, folder, e.name@, p)
        }),
{
    let pre = folder_prefix(folder);
    let keys = sorted::ascending(m.dom());
    let c = children(m, folder);
    let names = sorted::ascending(c.dom());
    sorted::finite_sets_are_listed(m.dom());
    children_are_finite(m, pre, keys);
    sorted::finite_sets_are_listed(c.dom());
    let entries = r.body->Folder_0.entries@;
    let e = entries_data(entries)[i];
    assert(e == entries[i]@);
    assert(entries_data(entries).contains(e));
    entries_are_of_names(c, names, e);
    let name = e.name;
    assert(c.dom().contains(name));
    child_names_have_no_slash(m, pre, keys, name);
    file_is_the_note(m, pre, keys, name);
    children_kinds(pre + name, folder, name);
    if e.is_dir {
        dir_shown(m, folder, name);
        let t = c[name].dir->0;
        let p = choose|p: Seq<char>|
            #[trigger] m.contains_key(p) && lies_under(p, folder, name) && m[p].last_modified == t
                && forall|q: Seq<char>|
                #[trigger] m.contains_key(q) && lies_under(q, folder, name) ==> no_later(m[q], t);
        assert(shows_dir(entries[i], m, folder, name, p));
    } else {
        assert(c[name].file is Some);
        assert(m.dom().contains(pre + name));
    }
}

/// Whether one entry stands before another: by name, and the file first where
/// both have one name.
spec fn entry_first(a: EntryData, b: EntryData) -> bool {
    text::precedes(a.name, b.name) || (a.name == b.name && !a.is_dir && b.is_dir)
}

proof fn entries_ascend(c: Map<Seq<char>, ChildData>, names: Seq<Seq<char>>, i: int, j: int)
    requires
        sorted::strictly_ascending(names),
        0 <= i < j < entries_among(c, names).len(),
    ensures
        entry_first(entries_among(c, names)[i], entries_among(c, names)[j]),
    decreases names.len(),
{
    let rest = names.drop_last();
    let last = names.last();
    let a = entries_among(c, rest);
    let b = child_entries(last, c[last]);
    let all = entries_among(c, names);
    assert(sorted::strictly_ascending(rest)) by {
        assert forall|x: int, y: int| 0 <= x < y < rest.len() implies text::precedes(
            #[trigger] rest[x],
            #[trigger] rest[y],
        ) by {
            assert(text::precedes(names[x], names[y]));
        }
    }
    if j < a.len() {
        entries_ascend(c, rest, i, j);
    } else if i < a.len() {
        assert(a.contains(a[i]));
        entries_are_of_names(c, rest, a[i]);
        let k = rest.index_of(a[i].name);
        assert(names[k] == a[i].name);
        assert(text::precedes(names[k], names[names.len() - 1]));
        assert(all[j] == b[j - a.len()]);
    } else {
        assert(all[i] == b[i - a.len()]);
        assert(all[j] == b[j - a.len()]);
    }
}

/// The entries of a listing are in ascending order of their names, a file
/// before a directory of the same name; so no entry is there twice.
pub proof fn listings_are_in_order(
    r: Reply,
    m: Map<Seq<char>, NoteData>,
    folder: Seq<char>,
    i: int,
    j: int,
)
    requires
        m.dom().finite(),
        folder_replied(r, m, folder),
        r.body is Folder,
        0 <= i < j < r.body->Folder_0.entries@.len(),
    ensures
        ({
            let a = r.body->Folder_0.entries@[i];
            let b = r.body->Folder_0.entries@[j];
            text::precedes(a.name@, b.name@) || (a.name@ == b.name@ && !a.is_dir && b.is_dir)
        }),
{
    let c = children(m, folder);
    children_are_finite(m, folder_prefix(folder), sorted::ascending(m.dom()));
    sorted::finite_sets_are_listed(c.dom());
    let entries = r.body->Folder_0.entries@;
    entries_ascend(c, sorted::ascending(c.dom()), i, j);
    assert(entries_data(entries)[i] == entries[i]@);
    assert(entries_data(entries)[j] == entries[j]@);
}

/// A folder is missing exactly if it is not the vault root and no note lies in
/// it. The root without notes is an empty listing.
pub proof fn folders_are_there_by_their_notes(
    r: Reply,
    m: Map<Seq<char>, NoteData>,
    folder: Seq<char>,
)
    requires
        m.dom().finite(),
        folder_replied(r, m, folder),
        forall|p: Seq<char>| #[trigger] m.contains_key(p) ==> p.len() > 0 && p.last() != '/',
    ensures
        folder.len() > 0 ==> (r.status == 200 <==> exists|p: Seq<char>|
            #[trigger] m.contains_key(p) && text::has_prefix(p, folder + seq!['/'])),
        folder.len() == 0 ==> r.status == 200,
        r.status != 200 ==> r.status == 404,
{
    reveal_strlit("/");
    assert("/"@ =~= seq!['/']);
    let pre = folder_prefix(folder);
    let keys = sorted::ascending(m.dom());
    let c = children(m, folder);
    sorted::finite_sets_are_listed(m.dom());
    if folder.len() > 0 {
        if exists|p: Seq<char>| #[trigger] m.contains_key(p) && text::has_prefix(p, pre) {
            let p = choose|p: Seq<char>| #[trigger] m.contains_key(p) && text::has_prefix(p, pre);
            assert(m.dom().contains(p));
            let rel = p.skip(pre.len() as int);
            assert(p =~= pre + rel);
            if rel.len() == 0 {
                assert(p.last() == '/');
            }
            let i = keys.index_of(p);
            let name = match text::cut(rel, '/') {
                Some(x) => x.0,
                None => rel,
            };
            child_kinds(p, pre, name);
            children_are_immediate(m, pre, keys, name);
            if text::cut(rel, '/') is Some {
                assert(is_in_dir_child(keys[i], pre, name));
            } else {
                assert(is_file_child(keys[i], pre, name));
            }
            assert(c.contains_key(name));
        }
        if c != Map::<Seq<char>, ChildData>::empty() {
            if forall|k: Seq<char>| !c.contains_key(k) {
                assert(c =~= Map::empty());
            }
            let name = choose|k: Seq<char>| c.contains_key(k);
            children_are_immediate(m, pre, keys, name);
            let d = child_at(c, name);
            let i = if d.file is Some {
                choose|i: int| 0 <= i < keys.len() && is_file_child(#[trigger] keys[i], pre, name)
            } else {
                choose|i: int| 0 <= i < keys.len() && is_in_dir_child(#[trigger] keys[i], pre, name)
            };
            assert(keys.contains(keys[i]));
            assert(m.dom().contains(keys[i]));
            child_kinds(keys[i], pre, name);
            assert(text::has_prefix(keys[i], pre));
        }
    }
}

proof fn plain_segments(t: Seq<char>, i: int)
    requires
        t.len() > 0,
        t[0] != '/' && t[0] != '.',
        forall|j: int| 0 <= j < t.len() ==> #[trigger] names::text_leads_on(t, j),
        0 <= i < text::split(t, '/').len(),
    ensures
        text::split(t, '/')[i].len() > 0,
        text::split(t, '/')[i][0] != '.',
    decreases t.len(),
{
    text::before_bounds(t, '/');
    let k = text::before(t, '/') as int;
    if k < t.len() {
        assert(names::text_leads_on(t, k));
        let rest = t.skip(k + 1);
        assert forall|j: int| 0 <= j < rest.len() implies #[trigger] names::text_leads_on(
            rest,
            j,
        ) by {
            assert(names::text_leads_on(t, k + 1 + j));
        }
        assert(text::split(t, '/') == seq![t.take(k)] + text::split(rest, '/'));
        if i > 0 {
            plain_segments(rest, i - 1);
        }
    } else {
        assert(text::split(t, '/') =~= seq![t]);
    }
}

/// A path of plain names is asked for as it is.
proof fn plain_path_is_asked_for(t: Seq<char>, folder: bool)
    requires
        names::plain_text(t),
    ensures
        checked(t, folder) == Ok::<Seq<char>, Seq<char>>(t),
        t.last() != '/',
{
    reveal_strlit(".");
    reveal_strlit("..");
    assert(names::text_leads_on(t, t.len() - 1));
    assert(text::without_leading(t, '/') == t);
    if has_forbidden(t) {
        let i = choose|i: int|
            0 <= i < text::split(t, '/').len() && forbidden(#[trigger] text::split(t, '/')[i]);
        plain_segments(t, i);
        assert("."@[0] == '.' && ".."@[0] == '.');
    }
}

/// A note is answered by its path, however the path is written in the address:
/// as JSON if nothing else is asked for, with what the store holds of it.
pub proof fn notes_are_answered_by_path(
    r: Reply,
    m: Map<Seq<char>, NoteData>,
    raw: Seq<char>,
    h: RequestHeaders,
    t: Seq<char>,
    key: Seq<char>,
)
    requires
        notes_replied(r, m, raw, h),
        percent::decoded(raw, false) == Some(t),
        names::plain_text(t),
        m.contains_key(t),
        h.if_none_match is None,
        h.accept@.len() == 0,
    ensures
        r.status == 200,
        r.content_type == Some(ContentType::Json),
        text::opt_view(r.etag) == Some(m[t].etag),
        r.body is Note,
        r.body->Note_0.path@ == m[t].path,
        r.body->Note_0.body@ == m[t].body,
        r.body->Note_0.etag@ == m[t].etag,
        r.body->Note_0.size == m[t].size,
        r.body->Note_0.last_modified@ == outside::utc_text(
            m[t].last_modified.0,
            m[t].last_modified.1,
        ),
        r.body->Note_0.frontmatter@ matches JsonData::Object(o) && (o.contains_key(key)
            <==> m[t].frontmatter.contains_key(key)) && (o.contains_key(key) ==> (match m[t].frontmatter[key] {
            Data::Bool(b) => o[key] == JsonData::Bool(b),
            Data::Int(n) => o[key] is Int && o[key]->Int_0 == n,
            Data::Text(s) => o[key] == JsonData::Text(s),
            Data::Null => o[key] == JsonData::Null,
            _ => true,
        })),
{
    plain_path_is_asked_for(t, false);
    json::json_keeps_lists_and_tables(seq![], 0, m[t].frontmatter, key);
}

/// A note is sent as the raw file if Markdown is asked for and the client does
/// not have it.
pub proof fn markdown_is_the_raw_file(
    r: Reply,
    m: Map<Seq<char>, NoteData>,
    raw: Seq<char>,
    h: RequestHeaders,
    t: Seq<char>,
)
    requires
        notes_replied(r, m, raw, h),
        percent::decoded(raw, false) == Some(t),
        names::plain_text(t),
        m.contains_key(t),
        h.if_none_match is None,
        markdown_wanted(h),
    ensures
        r.status == 200,
        r.content_type == Some(ContentType::Markdown),
        text::opt_view(r.etag) == Some(m[t].etag),
        r.body is Bytes,
        r.body->Bytes_0@ == m[t].raw_bytes,
{
    plain_path_is_asked_for(t, false);
}

/// A path that the store has no note for is missing.
pub proof fn unknown_notes_are_missing(
    r: Reply,
    m: Map<Seq<char>, NoteData>,
    raw: Seq<char>,
    h: RequestHeaders,
    t: Seq<char>,
)
    requires
        notes_replied(r, m, raw, h),
        percent::decoded(raw, false) == Some(t),
        names::plain_text(t),
        !m.contains_key(t),
    ensures
        r.status == 404,
        r.etag is None,
{
    plain_path_is_asked_for(t, false);
}

/// A path with a slash behind it asks for the folder; a slash alone asks for
/// the vault root.
pub proof fn trailing_slashes_ask_for_folders(
    r: Reply,
    m: Map<Seq<char>, NoteData>,
    raw: Seq<char>,
    h: RequestHeaders,
    t: Seq<char>,
)
    requires
        notes_replied(r, m, raw, h),
        percent::decoded(raw, false) == Some(t + seq!['/']),
        names::plain_text(t) || t.len() == 0,
    ensures
        folder_replied(r, m, t),
{
    let d = t + seq!['/'];
    assert(d.drop_last() =~= t);
    assert(d.last() == '/');
    if t.len() > 0 {
        plain_path_is_asked_for(t, true);
    } else {
        assert(t =~= seq![]);
    }
}

/// A path with an empty segment, a `.` or a `..` between slashes is refused,
/// and so are broken escapes and the empty path.
pub proof fn improper_paths_are_refused(
    r: Reply,
    m: Map<Seq<char>, NoteData>,
    raw: Seq<char>,
    h: RequestHeaders,
    parts: Seq<Seq<char>>,
    i: int,
)
    requires
        notes_replied(r, m, raw, h),
        percent::decoded(raw, false) is None || percent::decoded(raw, false) == Some(
            Seq::<char>::empty(),
        ) || (percent::decoded(raw, false) == Some(text::joined(parts, seq!['/'])) && 0 <= i
            < parts.len() && parts[0].len() > 0 && parts.last().len() > 0 && (parts[i].len() == 0
            || parts[i] == seq!['.'] || parts[i] == seq!['.', '.']) && forall|j: int|
            0 <= j < parts.len() ==> !(#[trigger] parts[j]).contains('/')),
    ensures
        r.status == 400,
        r.content_type == Some(ContentType::Plain),
        r.etag is None,
{
    reveal_strlit(".");
    reveal_strlit("..");
    assert("."@ =~= seq!['.']);
    assert(".."@ =~= seq!['.', '.']);
    if percent::decoded(raw, false) is Some && percent::decoded(raw, false)->0.len() > 0 {
        let d = percent::decoded(raw, false)->0;
        let last = parts.last();
        let first = parts[0];
        text::joined_pieces_split_again(parts, '/');
        assert(text::split(d, '/') == parts);
        joined_ends(parts, '/');
        assert(first.contains(first[0]));
        assert(last.contains(last.last()));
        assert(forbidden(text::split(d, '/')[i]));
        assert(has_forbidden(d));
    }
}

proof fn joined_ends(parts: Seq<Seq<char>>, c: char)
    requires
        parts.len() > 0,
        parts[0].len() > 0,
        parts.last().len() > 0,
    ensures
        text::joined(parts, seq![c]).len() > 0,
        text::joined(parts, seq![c])[0] == parts[0][0],
        text::joined(parts, seq![c]).last() == parts.last().last(),
    decreases parts.len(),
{
    if parts.len() > 1 {
        starts_with_first(parts.drop_last(), c);
    }
}

proof fn starts_with_first(parts: Seq<Seq<char>>, c: char)
    requires
        parts.len() > 0,
        parts[0].len() > 0,
    ensures
        text::joined(parts, seq![c]).len() > 0,
        text::joined(parts, seq![c])[0] == parts[0][0],
    decreases parts.len(),
{
    if parts.len() > 1 {
        starts_with_first(parts.drop_last(), c);
    }
}

/// A client has a note already exactly if one of the tags that it lists, with
/// commas between them and white space around them left aside, is the note's
/// own, the weak form of it, or the star. It is told so in place of the note.
pub proof fn listed_tags_tell_what_is_known(
    r: Reply,
    note: NoteData,
    h: RequestHeaders,
    tags: Seq<Seq<char>>,
)
    requires
        vault::is_strong_tag(note.etag),
        tags.len() > 0,
        forall|i: int| 0 <= i < tags.len() ==> !(#[trigger] tags[i]).contains(','),
        h.if_none_match matches Some(v) && headers::header_text(v@) == Some(
            text::joined(tags, seq![',']),
        ),
        note_replied(r, note, h),
    ensures
        r.status == 304 <==> exists|i: int|
            0 <= i < tags.len() && (text::trimmed(#[trigger] tags[i]) == note.etag || text::trimmed(
                tags[i],
            ) == seq!['W', '/'] + note.etag || text::trimmed(tags[i]) == seq!['*']),
        r.status == 304 ==> r.body is Empty && r.content_type is None,
        r.status == 304 || r.status == 200,
        text::opt_view(r.etag) == Some(note.etag),
{
    reveal_strlit("W/");
    reveal_strlit("*");
    assert("W/"@ =~= seq!['W', '/']);
    assert("*"@ =~= seq!['*']);
    let v = text::joined(tags, seq![',']);
    text::joined_pieces_split_again(tags, ',');
    assert(text::split(v, ',') == tags);
    let e = note.etag;
    assert forall|i: int| 0 <= i < tags.len() implies (tag_matches(#[trigger] tags[i], e)
        <==> text::trimmed(tags[i]) == e || text::trimmed(tags[i]) == seq!['W', '/'] + e
        || text::trimmed(tags[i]) == seq!['*']) by {
        let t = text::trimmed(tags[i]);
        text::prefix_and_suffix_come_off("W/"@, e, t);
        if t == e && text::has_prefix(t, "W/"@) {
            assert(t.take(2)[0] == t[0]);
        }
    }
    if is_current(h, e) {
        let i = choose|i: int|
            0 <= i < text::split(v, ',').len() && tag_matches(#[trigger] text::split(v, ',')[i], e);
        assert(tag_matches(tags[i], e));
    }
    if exists|i: int|
        0 <= i < tags.len() && (text::trimmed(#[trigger] tags[i]) == e || text::trimmed(tags[i])
            == seq!['W', '/'] + e || text::trimmed(tags[i]) == seq!['*']) {
        let i = choose|i: int|
            0 <= i < tags.len() && (text::trimmed(#[trigger] tags[i]) == e || text::trimmed(tags[i])
                == seq!['W', '/'] + e || text::trimmed(tags[i]) == seq!['*']);
        assert(tag_matches(text::split(v, ',')[i], e));
    }
}

/// A request that names no tag it has, or whose tags are not text, is answered
/// in full.
pub proof fn requests_without_tags_are_answered_in_full(
    r: Reply,
    note: NoteData,
    h: RequestHeaders,
)
    requires
        note_replied(r, note, h),
        h.if_none_match matches Some(v) ==> headers::header_text(v@) is None,
    ensures
        r.status == 200,
        text::opt_view(r.etag) == Some(note.etag),
{
}

/// An item of an `Accept` value names Markdown exactly if what stands before
/// its parameters does, whatever the case of its letters.
pub proof fn parameters_are_left_aside(mime: Seq<char>, parameters: Seq<char>)
    requires
        !mime.contains(';'),
    ensures
        names_markdown(mime) <==> text::same_ignoring_case(
            text::trimmed(mime),
            "text/markdown"@,
        ),
        names_markdown(mime + seq![';'] + parameters) <==> names_markdown(mime),
{
    single_piece(mime, ';');
    let s = mime + seq![';'] + parameters;
    assert forall|j: int| 0 <= j < mime.len() implies mime[j] != ';' by {
        assert(mime.contains(mime[j]));
    }
    assert(s[mime.len() as int] == ';');
    text::before_is(s, ';', mime.len());
    assert(s.take(mime.len() as int) =~= mime);
}

/// Markdown is asked for exactly if an item of some `Accept` value names it;
/// the items stand with commas between them.
pub proof fn accepted_types_are_told_by_commas(
    h: RequestHeaders,
    items: Seq<Seq<char>>,
    k: int,
)
    requires
        items.len() > 0,
        forall|i: int| 0 <= i < items.len() ==> !(#[trigger] items[i]).contains(','),
        0 <= k < h.accept@.len(),
        headers::header_text(h.accept@[k]@) == Some(text::joined(items, seq![','])),
    ensures
        (exists|i: int| 0 <= i < items.len() && names_markdown(#[trigger] items[i]))
            ==> markdown_wanted(h),
        h.accept@.len() == 1 && markdown_wanted(h) ==> exists|i: int|
            0 <= i < items.len() && names_markdown(#[trigger] items[i]),
{
    let v = text::joined(items, seq![',']);
    text::joined_pieces_split_again(items, ',');
    assert(text::split(v, ',') == items);
    if exists|i: int| 0 <= i < items.len() && names_markdown(#[trigger] items[i]) {
        let i = choose|i: int| 0 <= i < items.len() && names_markdown(#[trigger] items[i]);
        assert(names_markdown(text::split(v, ',')[i]));
        assert(value_accepts_markdown(h.accept@[k]@));
    }
    if h.accept@.len() == 1 && markdown_wanted(h) {
        assert(value_accepts_markdown(h.accept@[0]@));
        let i = choose|i: int|
            0 <= i < text::split(v, ',').len() && names_markdown(
                #[trigger] text::split(v, ',')[i],
            );
        assert(names_markdown(items[i]));
    }
}

/// Refusals, missing things and an index that is not ready are told apart by
/// their status, and say in plain text what is the matter.
pub proof fn failures_are_told_apart(r: Reply, reason: Seq<char>)
    ensures
        refuses(r, reason) ==> r.status == 400,
        is_missing(r) ==> r.status == 404,
        is_not_ready(r) ==> r.status == 503,
        refuses(r, reason) || is_missing(r) || is_not_ready(r) ==> r.content_type == Some(
            ContentType::Plain,
        ) && r.etag is None && r.body is Text,
        refuses(r, reason) ==> text::is_within(reason, r.body->Text_0@),
{
    if refuses(r, reason) {
        text::within_by("bad request: "@, reason, "\n"@);
    }
}

/// A query is answered with rows as JSON or with a merge as Markdown, and one
/// whose merge the guard refuses is refused only where the merge is asked for.
pub proof fn queries_are_answered_as_asked(
    r: Reply,
    m: Map<Seq<char>, NoteData>,
    q: QueryData,
    h: RequestHeaders,
)
    requires
        query_replied(r, m, q, h),
    ensures
        !markdown_wanted(h) ==> r.status == 200 && r.content_type == Some(ContentType::Json)
            && r.body is Query,
        markdown_wanted(h) && !query::merge_refused(m, q) ==> r.status == 200 && r.content_type
            == Some(ContentType::Markdown) && r.body is Text,
        markdown_wanted(h) && query::merge_refused(m, q) ==> r.status == 400,
        r.etag is None,
{
}

/// The names of the content types.
pub proof fn content_types_have_their_names()
    ensures
        content_type_name(ContentType::Json) == "application/json"@,
        text::has_prefix(content_type_name(ContentType::Markdown), "text/markdown"@),
        text::has_prefix(content_type_name(ContentType::Plain), "text/plain"@),
{
    reveal_strlit("text/markdown; charset=utf-8");
    reveal_strlit("text/markdown");
    reveal_strlit("text/plain; charset=utf-8");
    reveal_strlit("text/plain");
    assert(content_type_name(ContentType::Markdown).take(13) =~= "text/markdown"@);
    assert(content_type_name(ContentType::Plain).take(10) =~= "text/plain"@);
}

/// A health report shows the number of notes, the instants that were recorded
/// and the name of the watcher's state.
pub proof fn health_shows_what_is_recorded(
    r: HealthResponse,
    m: Map<Seq<char>, NoteData>,
    h: HealthData,
    counters: RestartCounters,
    vault: Seq<u8>,
)
    requires
        m.dom().finite(),
        health_shown(r, m, h, counters, vault),
    ensures
        r.note_count == m.dom().len(),
        r.in_flight_rescan == h.in_flight_rescan,
        r.vault_path@ == outside::lossy(vault),
        r.watcher_state@ == "running"@ <==> h.watcher_state == WatcherState::Running,
        r.watcher_state@ == "degraded"@ <==> h.watcher_state == WatcherState::Degraded,
{
    reveal_strlit("running");
    reveal_strlit("degraded");
    assert("running"@.len() != "degraded"@.len());
    let keys = sorted::ascending(m.dom());
    sorted::finite_sets_are_listed(m.dom());
    assert(keys.no_duplicates()) by {
        assert forall|i: int, j: int|
            0 <= i < keys.len() && 0 <= j < keys.len() && i != j implies keys[i] != keys[j] by {
            if keys[i] == keys[j] {
                text::precedes_irreflexive(keys[i]);
                if i < j {
                    assert(text::precedes(keys[i], keys[j]));
                } else {
                    assert(text::precedes(keys[j], keys[i]));
                }
            }
        }
    }
    keys.unique_seq_to_set();
    assert(keys.to_set() =~= m.dom());
}

/// The instants of a health report are those that were recorded last, each
/// under its own name, to the second; one that was never recorded is missing.
pub proof fn health_shows_when_things_happened(
    r: HealthResponse,
    m: Map<Seq<char>, NoteData>,
    h: HealthData,
    counters: RestartCounters,
    vault: Seq<u8>,
    at: (i64, u32),
)
    requires
        health_shown(r, m, h, counters, vault),
        dates::valid_instant(at.0, at.1),
        at.1 < 1_000_000_000,
        dates::millis(at) != 0,
    ensures
        h.last_index_update_ms == 0 ==> r.last_index_update_ts is None,
        h.last_event_ms == 0 ==> r.last_event_ts is None,
        h.last_index_update_ms == dates::millis(at) ==> text::opt_view(r.last_index_update_ts)
            == Some(outside::utc_text(at.0, (at.1 / 1_000_000 * 1_000_000) as u32)),
        h.last_event_ms == dates::millis(at) ==> text::opt_view(r.last_event_ts) == Some(
            outside::utc_text(at.0, (at.1 / 1_000_000 * 1_000_000) as u32),
        ),
{
    health::noted_time_reads_back(at);
}

/// Slashes before a path are left aside: a request for it is answered the same
/// with them as without them.
pub proof fn leading_slashes_are_left_aside(
    a: Reply,
    m: Map<Seq<char>, NoteData>,
    raw: Seq<char>,
    h: RequestHeaders,
    t: Seq<char>,
)
    requires
        notes_replied(a, m, raw, h),
        percent::decoded(raw, false) == Some(seq!['/'] + t),
        names::plain_text(t),
    ensures
        m.contains_key(t) ==> note_replied(a, m[t], h),
        !m.contains_key(t) ==> a.status == 404,
{
    plain_path_is_asked_for(t, false);
    let d = seq!['/'] + t;
    assert(d.drop_first() =~= t);
    assert(d.last() == t.last());
    assert(text::without_leading(d, '/') == text::without_leading(t, '/'));
}

/// A reply that is sent once the notes are there is the one to what was asked;
/// before that every question is answered with a status of its own.
pub proof fn nothing_is_told_before_the_notes_are_there<F: Fn(&str) -> Option<u64>>(
    store: &NoteStore,
    asked: &Asked,
    h: &RequestHeaders,
    read: F,
    r: Reply,
)
    requires
        call_ensures(answer::<F>, (store, asked, h, read), r),
        !store.loaded(),
    ensures
        r.status == 503,
        r.etag is None,
        r.body is Text,
{
}

/// The health report is always given, as JSON, and is not one of the answers
/// that a client can have already.
pub proof fn health_is_always_told(
    store: &NoteStore,
    health: &HealthState,
    counters: &RestartCounters,
    vault: &[u8],
    r: Reply,
)
    requires
        call_ensures(get_health, (store, health, counters, vault), r),
    ensures
        r.status == 200,
        r.content_type == Some(ContentType::Json),
        r.etag is None,
        r.body is Health,
{
}

}
