//! The JSON documents that answers are sent as: the names of their members, and
//! the order in which these stand.

use vstd::prelude::*;

use crate::http;
use crate::http::{
    entry_type, EntryData, FolderEntry, FolderResponse, HealthResponse, NoteResponse,
};
use crate::json;
use crate::json::{Json, JsonData};
use crate::lists;
use crate::query;
use crate::query::{QueryData, QueryResponse, ResultEntry};
use crate::sorted;
use crate::sorted::SortedMap;
use crate::text;
use crate::vault::NoteData;

verus! {

/// The document of a note.
pub open spec fn note_document(r: NoteResponse) -> JsonData {
    JsonData::Record(
        seq![
            ("path"@, JsonData::Text(r.path@)),
            ("frontmatter"@, r.frontmatter@),
            ("body"@, JsonData::Text(r.body@)),
            ("last_modified"@, JsonData::Text(r.last_modified@)),
            ("etag"@, JsonData::Text(r.etag@)),
            ("size"@, JsonData::Int(r.size as i128)),
        ],
    )
}

/// The document of one row: that of a note without its body.
pub open spec fn row_document(r: ResultEntry) -> JsonData {
    JsonData::Record(
        seq![
            ("path"@, JsonData::Text(r.path@)),
            ("frontmatter"@, r.frontmatter@),
            ("last_modified"@, JsonData::Text(r.last_modified@)),
            ("etag"@, JsonData::Text(r.etag@)),
            ("size"@, JsonData::Int(r.size as i128)),
        ],
    )
}

/// The document of a query response.
pub open spec fn query_document(r: QueryResponse) -> JsonData {
    JsonData::Record(
        seq![
            (
                "results"@,
                JsonData::Array(r.results@.map_values(|e: ResultEntry| row_document(e))),
            ),
            ("total"@, JsonData::Int(r.total as i128)),
            ("truncated"@, JsonData::Bool(r.truncated)),
        ],
    )
}

/// The document of a folder entry. A directory has no size, and no member for
/// one.
pub open spec fn entry_document(e: EntryData) -> JsonData {
    let members = seq![
        ("name"@, JsonData::Text(e.name)),
        (
            "type"@,
            JsonData::Text(
                if e.is_dir {
                    "dir"@
                } else {
                    "file"@
                },
            ),
        ),
        ("last_modified"@, JsonData::Text(e.last_modified)),
    ];
    JsonData::Record(
        match e.size {
            Some(size) => members.push(("size"@, JsonData::Int(size as i128))),
            None => members,
        },
    )
}

/// The document of a folder.
pub open spec fn folder_document(f: FolderResponse) -> JsonData {
    JsonData::Record(
        seq![
            ("path"@, JsonData::Text(f.path@)),
            (
                "entries"@,
                JsonData::Array(f.entries@.map_values(|e: FolderEntry| entry_document(e@))),
            ),
        ],
    )
}

/// A text that may be missing: null where it is.
pub open spec fn optional_text(t: Option<Seq<char>>) -> JsonData {
    match t {
        Some(s) => JsonData::Text(s),
        None => JsonData::Null,
    }
}

/// The restarts of each role, by its name.
pub open spec fn restarts_document(m: Map<Seq<char>, u32>) -> JsonData {
    JsonData::Object(m.map_values(|n: u32| JsonData::Int(n as i128)))
}

/// The document of a health report.
pub open spec fn health_document(h: HealthResponse) -> JsonData {
    JsonData::Record(
        seq![
            ("vault_path"@, JsonData::Text(h.vault_path@)),
            ("note_count"@, JsonData::Int(h.note_count as i128)),
            ("last_index_update_ts"@, optional_text(text::opt_view(h.last_index_update_ts))),
            ("last_event_ts"@, optional_text(text::opt_view(h.last_event_ts))),
            ("watcher_state"@, JsonData::Text(h.watcher_state@)),
            ("in_flight_rescan"@, JsonData::Bool(h.in_flight_rescan)),
            (
                "supervisor"@,
                JsonData::Record(seq![("restarts"@, restarts_document(h.restarts@))]),
            ),
        ],
    )
}

/// Adds a member to a record.
fn add_member(members: &mut Vec<(String, Json)>, name: &str, value: Json)
    ensures
        json::record_members(final(members)@) == json::record_members(old(members)@).push(
            (name@, value@),
        ),
{
    let ghost before = json::record_members(members@);
    members.push((text::copy_of(name), value));
    assert(json::record_members(members@) =~= before.push((name@, value@)));
}

fn no_members() -> (r: Vec<(String, Json)>)
    ensures
        json::record_members(r@) == Seq::<(Seq<char>, JsonData)>::empty(),
{
    let r: Vec<(String, Json)> = Vec::new();
    assert(json::record_members(r@) =~= Seq::<(Seq<char>, JsonData)>::empty());
    r
}

fn record(members: Vec<(String, Json)>) -> (r: Json)
    ensures
        r@ == JsonData::Record(json::record_members(members@)),
{
    proof {
        json::record_data(members);
    }
    Json::Record(members)
}

/// The document of a note.
pub fn note_json(note: NoteResponse) -> (r: Json)
    ensures
        r@ == note_document(note),
{
    let mut members = no_members();
    add_member(&mut members, "path", Json::String(note.path));
    add_member(&mut members, "frontmatter", note.frontmatter);
    add_member(&mut members, "body", Json::String(note.body));
    add_member(&mut members, "last_modified", Json::String(note.last_modified));
    add_member(&mut members, "etag", Json::String(note.etag));
    add_member(&mut members, "size", Json::Int(note.size as i128));
    assert(json::record_members(members@) =~= note_document(note)->Record_0);
    record(members)
}

/// The document of one row.
pub fn row_json(row: ResultEntry) -> (r: Json)
    ensures
        r@ == row_document(row),
{
    let mut members = no_members();
    add_member(&mut members, "path", Json::String(row.path));
    add_member(&mut members, "frontmatter", row.frontmatter);
    add_member(&mut members, "last_modified", Json::String(row.last_modified));
    add_member(&mut members, "etag", Json::String(row.etag));
    add_member(&mut members, "size", Json::Int(row.size as i128));
    assert(json::record_members(members@) =~= row_document(row)->Record_0);
    record(members)
}

/// The document of a query response.
pub fn response_json(response: QueryResponse) -> (r: Json)
    ensures
        r@ == query_document(response),
{
    let ghost all = response.results@;
    let mut rest = lists::reversed(response.results);
    let mut rows: Vec<Json> = Vec::new();
    while rest.len() > 0
        invariant
            rows@.len() + rest@.len() == all.len(),
            forall|j: int| 0 <= j < rest@.len() ==> #[trigger] rest@[j] == all[all.len() - 1 - j],
            forall|j: int| 0 <= j < rows@.len() ==> (#[trigger] rows@[j])@ == row_document(all[j]),
        decreases rest@.len(),
    {
        match rest.pop() {
            Some(row) => {
                assert(row == all[rows@.len() as int]);
                rows.push(row_json(row));
            },
            None => {},
        }
    }
    proof {
        json::array_data(rows);
        assert(rows@.map_values(|j: Json| j@) =~= all.map_values(
            |e: ResultEntry| row_document(e),
        ));
    }
    let mut members = no_members();
    add_member(&mut members, "results", Json::Array(rows));
    add_member(&mut members, "total", Json::Int(response.total as i128));
    add_member(&mut members, "truncated", Json::Bool(response.truncated));
    assert(json::record_members(members@) =~= query_document(response)->Record_0);
    record(members)
}

/// The document of a folder entry.
pub fn entry_json(e: &FolderEntry) -> (r: Json)
    ensures
        r@ == entry_document(e@),
{
    let mut members = no_members();
    add_member(&mut members, "name", Json::String(e.name.clone()));
    add_member(&mut members, "type", Json::String(text::copy_of(entry_type(e))));
    add_member(&mut members, "last_modified", Json::String(e.last_modified.clone()));
    match e.size {
        Some(size) => {
            add_member(&mut members, "size", Json::Int(size as i128));
        },
        None => {},
    }
    assert(json::record_members(members@) =~= entry_document(e@)->Record_0);
    record(members)
}

/// The document of a folder.
pub fn folder_json(f: &FolderResponse) -> (r: Json)
    ensures
        r@ == folder_document(*f),
{
    let mut entries: Vec<Json> = Vec::new();
    let mut i: usize = 0;
    while i < f.entries.len()
        invariant
            i <= f.entries@.len(),
            entries@.len() == i,
            forall|j: int|
                0 <= j < i ==> (#[trigger] entries@[j])@ == entry_document(f.entries@[j]@),
        decreases f.entries@.len() - i,
    {
        entries.push(entry_json(&f.entries[i]));
        i += 1;
    }
    proof {
        json::array_data(entries);
        assert(entries@.map_values(|j: Json| j@) =~= f.entries@.map_values(
            |e: FolderEntry| entry_document(e@),
        ));
    }
    let mut members = no_members();
    add_member(&mut members, "path", Json::String(f.path.clone()));
    add_member(&mut members, "entries", Json::Array(entries));
    assert(json::record_members(members@) =~= folder_document(*f)->Record_0);
    record(members)
}

fn text_or_null(t: &Option<String>) -> (r: Json)
    ensures
        r@ == optional_text(text::opt_view(*t)),
{
    match t {
        Some(s) => Json::String(s.clone()),
        None => Json::Null,
    }
}

fn restarts_json(m: &SortedMap<u32>) -> (r: Json)
    ensures
        r@ == restarts_document(m@),
{
    let mut out: SortedMap<Json> = SortedMap::new();
    let n: usize = m.len();
    let ghost keys = sorted::ascending(m@.dom());
    let mut i: usize = 0;
    while i < n
        invariant
            i <= n == keys.len(),
            keys == sorted::ascending(m@.dom()),
            sorted::lists(keys, m@.dom()),
            forall|k: Seq<char>| #[trigger]
                out@.contains_key(k) <==> keys.take(i as int).contains(k),
            forall|k: Seq<char>| #[trigger]
                out@.contains_key(k) ==> out@[k]@ == JsonData::Int(m@[k] as i128),
        decreases n - i,
    {
        let key = m.key_at(i);
        let count: u32 = *m.value_at(i);
        out.insert(key.clone(), Json::Int(count as i128));
        proof {
            assert forall|k: Seq<char>| #[trigger]
                out@.contains_key(k) <==> keys.take(i + 1).contains(k) by {
                lists::take_grows(keys, i as int, k);
            }
        }
        i += 1;
    }
    proof {
        assert(keys.take(n as int) =~= keys);
        assert forall|k: Seq<char>| #[trigger] m@.contains_key(k) <==> out@.contains_key(k) by {
            assert(m@.dom().contains(k) <==> keys.contains(k));
        }
        json::object_data(out);
        assert(json::members(out@) =~= restarts_document(m@)->Object_0);
    }
    Json::Object(out)
}

/// The document of a health report.
pub fn health_json(h: &HealthResponse) -> (r: Json)
    ensures
        r@ == health_document(*h),
{
    let mut supervisor = no_members();
    add_member(&mut supervisor, "restarts", restarts_json(&h.restarts));
    assert(json::record_members(supervisor@) =~= seq![
        ("restarts"@, restarts_document(h.restarts@)),
    ]);
    let mut members = no_members();
    add_member(&mut members, "vault_path", Json::String(h.vault_path.clone()));
    add_member(&mut members, "note_count", Json::Int(h.note_count as i128));
    add_member(&mut members, "last_index_update_ts", text_or_null(&h.last_index_update_ts));
    add_member(&mut members, "last_event_ts", text_or_null(&h.last_event_ts));
    add_member(&mut members, "watcher_state", Json::String(text::copy_of(h.watcher_state)));
    add_member(&mut members, "in_flight_rescan", Json::Bool(h.in_flight_rescan));
    add_member(&mut members, "supervisor", record(supervisor));
    assert(json::record_members(members@) =~= health_document(*h)->Record_0);
    record(members)
}

/// One query over the same notes has one document: what is written offline is
/// what is served.
pub proof fn one_query_one_document(
    a: QueryResponse,
    b: QueryResponse,
    m: Map<Seq<char>, NoteData>,
    q: QueryData,
)
    requires
        query::answers(a, m, q, query::rfc3339_z),
        query::answers(b, m, q, query::rfc3339_z),
    ensures
        query_document(a) == query_document(b),
{
    let x = a.results@.map_values(|e: ResultEntry| row_document(e));
    let y = b.results@.map_values(|e: ResultEntry| row_document(e));
    assert forall|i: int| 0 <= i < x.len() implies x[i] == y[i] by {
        http::offline_rows_are_the_served_ones(a, b, m, q, i);
        assert(row_document(a.results@[i])->Record_0 =~= row_document(b.results@[i])->Record_0);
    }
    assert(x =~= y);
    assert(query_document(a)->Record_0 =~= query_document(b)->Record_0);
}

/// Whether a document has a member.
pub open spec fn has_member(doc: JsonData, name: Seq<char>, value: JsonData) -> bool {
    doc is Record && doc->Record_0.contains((name, value))
}

proof fn member_at(doc: JsonData, i: int, name: Seq<char>, value: JsonData)
    requires
        doc is Record,
        0 <= i < doc->Record_0.len(),
        doc->Record_0[i] == (name, value),
    ensures
        has_member(doc, name, value),
{
}

/// A note that is sent back has each of its fields under its own name: what the
/// document says is enough to tell two notes apart.
pub proof fn note_documents_name_their_members(r: NoteResponse)
    ensures
        note_document(r) is Record,
        note_document(r)->Record_0.len() == 6,
        has_member(note_document(r), "path"@, JsonData::Text(r.path@)),
        has_member(note_document(r), "frontmatter"@, r.frontmatter@),
        has_member(note_document(r), "body"@, JsonData::Text(r.body@)),
        has_member(note_document(r), "last_modified"@, JsonData::Text(r.last_modified@)),
        has_member(note_document(r), "etag"@, JsonData::Text(r.etag@)),
        has_member(note_document(r), "size"@, JsonData::Int(r.size as i128)),
{
    let d = note_document(r);
    member_at(d, 0, "path"@, JsonData::Text(r.path@));
    member_at(d, 1, "frontmatter"@, r.frontmatter@);
    member_at(d, 2, "body"@, JsonData::Text(r.body@));
    member_at(d, 3, "last_modified"@, JsonData::Text(r.last_modified@));
    member_at(d, 4, "etag"@, JsonData::Text(r.etag@));
    member_at(d, 5, "size"@, JsonData::Int(r.size as i128));
}

/// A row is the note without its body: it has every member of the note but that
/// one, with the same values.
pub proof fn rows_are_notes_without_bodies(
    row: ResultEntry,
    note: NoteResponse,
    name: Seq<char>,
    value: JsonData,
)
    requires
        row.path@ == note.path@,
        row.frontmatter@ == note.frontmatter@,
        row.last_modified@ == note.last_modified@,
        row.etag@ == note.etag@,
        row.size == note.size,
    ensures
        has_member(row_document(row), name, value) <==> has_member(note_document(note), name, value)
            && name != "body"@,
{
    reveal_strlit("path");
    reveal_strlit("frontmatter");
    reveal_strlit("body");
    reveal_strlit("last_modified");
    reveal_strlit("etag");
    reveal_strlit("size");
    assert("body"@[0] == 'b');
    assert("path"@[0] == 'p' && "frontmatter"@[0] == 'f' && "last_modified"@[0] == 'l');
    assert("etag"@[0] == 'e' && "size"@[0] == 's');
    let a = row_document(row)->Record_0;
    let b = note_document(note)->Record_0;
    if a.contains((name, value)) {
        let i = a.index_of((name, value));
        let j = if i < 2 {
            i
        } else {
            i + 1
        };
        assert(a[i] == b[j]);
    }
    if b.contains((name, value)) && name != "body"@ {
        let j = b.index_of((name, value));
        let i = if j < 2 {
            j
        } else {
            j - 1
        };
        assert(a[i] == b[j]);
    }
}

/// A query's document has a row for each result, in their order, the total and
/// the mark of being cut.
pub proof fn query_documents_have_every_row(r: QueryResponse, i: int)
    ensures
        query_document(r) is Record,
        query_document(r)->Record_0.len() == 3,
        has_member(query_document(r), "total"@, JsonData::Int(r.total as i128)),
        has_member(query_document(r), "truncated"@, JsonData::Bool(r.truncated)),
        exists|rows: Seq<JsonData>|
            #[trigger] has_member(query_document(r), "results"@, JsonData::Array(rows))
                && rows.len() == r.results@.len() && (0 <= i < rows.len() ==> has_member(
                rows[i],
                "path"@,
                JsonData::Text(r.results@[i].path@),
            )),
{
    let d = query_document(r);
    let rows = r.results@.map_values(|e: ResultEntry| row_document(e));
    member_at(d, 0, "results"@, JsonData::Array(rows));
    member_at(d, 1, "total"@, JsonData::Int(r.total as i128));
    member_at(d, 2, "truncated"@, JsonData::Bool(r.truncated));
    if 0 <= i < rows.len() {
        member_at(rows[i], 0, "path"@, JsonData::Text(r.results@[i].path@));
    }
}

/// A folder's document has an entry for each child, in their order. An entry
/// names the child, its kind and its time, and its size only if it is a file.
pub proof fn folder_documents_have_every_entry(f: FolderResponse, i: int)
    requires
        0 <= i < f.entries@.len(),
    ensures
        has_member(folder_document(f), "path"@, JsonData::Text(f.path@)),
        exists|entries: Seq<JsonData>|
            #[trigger] has_member(folder_document(f), "entries"@, JsonData::Array(entries))
                && entries.len() == f.entries@.len() && ({
                let e = f.entries@[i];
                &&& has_member(entries[i], "name"@, JsonData::Text(e.name@))
                &&& has_member(entries[i], "last_modified"@, JsonData::Text(e.last_modified@))
                &&& e.is_dir ==> has_member(entries[i], "type"@, JsonData::Text("dir"@))
                &&& !e.is_dir ==> has_member(entries[i], "type"@, JsonData::Text("file"@))
                &&& e.size matches Some(n) ==> has_member(
                    entries[i],
                    "size"@,
                    JsonData::Int(n as i128),
                )
                &&& e.size is None ==> entries[i]->Record_0.len() == 3
            }),
{
    let d = folder_document(f);
    let entries = f.entries@.map_values(|e: FolderEntry| entry_document(e@));
    member_at(d, 0, "path"@, JsonData::Text(f.path@));
    member_at(d, 1, "entries"@, JsonData::Array(entries));
    let e = f.entries@[i];
    let x = entries[i];
    member_at(x, 0, "name"@, JsonData::Text(e.name@));
    if e.is_dir {
        member_at(x, 1, "type"@, JsonData::Text("dir"@));
    } else {
        member_at(x, 1, "type"@, JsonData::Text("file"@));
    }
    member_at(x, 2, "last_modified"@, JsonData::Text(e.last_modified@));
    if e.size is Some {
        member_at(x, 3, "size"@, JsonData::Int(e.size->0 as i128));
    }
}

/// A health document has each part of the report under its own name; a time
/// that was never recorded is null, and the restarts stand by role.
pub proof fn health_documents_name_their_members(h: HealthResponse, role: Seq<char>)
    ensures
        health_document(h) is Record,
        has_member(health_document(h), "vault_path"@, JsonData::Text(h.vault_path@)),
        has_member(health_document(h), "note_count"@, JsonData::Int(h.note_count as i128)),
        h.last_index_update_ts is None ==> has_member(
            health_document(h),
            "last_index_update_ts"@,
            JsonData::Null,
        ),
        h.last_index_update_ts matches Some(t) ==> has_member(
            health_document(h),
            "last_index_update_ts"@,
            JsonData::Text(t@),
        ),
        h.last_event_ts is None ==> has_member(
            health_document(h),
            "last_event_ts"@,
            JsonData::Null,
        ),
        h.last_event_ts matches Some(t) ==> has_member(
            health_document(h),
            "last_event_ts"@,
            JsonData::Text(t@),
        ),
        has_member(health_document(h), "watcher_state"@, JsonData::Text(h.watcher_state@)),
        has_member(health_document(h), "in_flight_rescan"@, JsonData::Bool(h.in_flight_rescan)),
        exists|s: JsonData, o: Map<Seq<char>, JsonData>|
            #[trigger] has_member(health_document(h), "supervisor"@, s) && #[trigger] has_member(
                s,
                "restarts"@,
                JsonData::Object(o),
            ) && (o.contains_key(role) <==> h.restarts@.contains_key(role)) && (o.contains_key(role)
                ==> o[role] == JsonData::Int(h.restarts@[role] as i128)),
{
    let d = health_document(h);
    member_at(d, 0, "vault_path"@, JsonData::Text(h.vault_path@));
    member_at(d, 1, "note_count"@, JsonData::Int(h.note_count as i128));
    member_at(d, 2, "last_index_update_ts"@, d->Record_0[2].1);
    member_at(d, 3, "last_event_ts"@, d->Record_0[3].1);
    member_at(d, 4, "watcher_state"@, JsonData::Text(h.watcher_state@));
    member_at(d, 5, "in_flight_rescan"@, JsonData::Bool(h.in_flight_rescan));
    let o = restarts_document(h.restarts@)->Object_0;
    let s = JsonData::Record(seq![("restarts"@, restarts_document(h.restarts@))]);
    member_at(d, 6, "supervisor"@, s);
    member_at(s, 0, "restarts"@, JsonData::Object(o));
}

}
