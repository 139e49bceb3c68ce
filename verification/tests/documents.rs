use anwesen::documents::{entry_json, folder_json, health_json, note_json, response_json};
use anwesen::http::{FolderEntry, FolderResponse, HealthResponse, NoteResponse};
use anwesen::json::Json;
use anwesen::query::{QueryResponse, ResultEntry};
use anwesen::sorted::SortedMap;

fn text(s: &str) -> Json {
    Json::String(s.into())
}

fn record(members: Vec<(&str, Json)>) -> Json {
    Json::Record(
        members
            .into_iter()
            .map(|(name, value)| (name.to_string(), value))
            .collect(),
    )
}

fn frontmatter() -> Json {
    let mut members = SortedMap::new();
    members.insert("tag".into(), text("demo"));
    Json::Object(members)
}

fn file(name: &str, size: u64) -> FolderEntry {
    FolderEntry {
        name: name.into(),
        is_dir: false,
        last_modified: "1970-01-01T00:00:00Z".into(),
        size: Some(size),
    }
}

#[test]
fn a_note_document_names_every_part_of_the_note() {
    let note = NoteResponse {
        path: "a.md".into(),
        frontmatter: frontmatter(),
        body: "x".into(),
        last_modified: "1970-01-01T00:00:00Z".into(),
        etag: "\"e\"".into(),
        size: u64::MAX,
    };
    assert_eq!(
        note_json(note),
        record(vec![
            ("path", text("a.md")),
            ("frontmatter", frontmatter()),
            ("body", text("x")),
            ("last_modified", text("1970-01-01T00:00:00Z")),
            ("etag", text("\"e\"")),
            ("size", Json::Int(18_446_744_073_709_551_615)),
        ])
    );
}

#[test]
fn a_query_document_holds_rows_without_bodies() {
    let response = QueryResponse {
        results: vec![
            ResultEntry {
                path: "a.md".into(),
                frontmatter: frontmatter(),
                last_modified: "t".into(),
                etag: "e".into(),
                size: 3,
            },
            ResultEntry {
                path: "b.md".into(),
                frontmatter: Json::Null,
                last_modified: "u".into(),
                etag: "f".into(),
                size: 4,
            },
        ],
        total: 7,
        truncated: true,
    };
    let row = |path: &str, fm: Json, t: &str, e: &str, n: i128| {
        record(vec![
            ("path", text(path)),
            ("frontmatter", fm),
            ("last_modified", text(t)),
            ("etag", text(e)),
            ("size", Json::Int(n)),
        ])
    };
    assert_eq!(
        response_json(response),
        record(vec![
            (
                "results",
                Json::Array(vec![
                    row("a.md", frontmatter(), "t", "e", 3),
                    row("b.md", Json::Null, "u", "f", 4),
                ])
            ),
            ("total", Json::Int(7)),
            ("truncated", Json::Bool(true)),
        ])
    );
}

#[test]
fn only_a_file_has_a_size_in_a_folder_document() {
    let dir = FolderEntry {
        name: "d".into(),
        is_dir: true,
        last_modified: "t".into(),
        size: None,
    };
    assert_eq!(
        entry_json(&dir),
        record(vec![
            ("name", text("d")),
            ("type", text("dir")),
            ("last_modified", text("t")),
        ])
    );
    let folder = FolderResponse {
        path: "f".into(),
        entries: vec![dir, file("a.md", 5)],
    };
    let Json::Record(members) = folder_json(&folder) else {
        panic!("a folder is a record");
    };
    assert_eq!(members.len(), 2);
    assert_eq!(members[0], ("path".to_string(), text("f")));
    assert_eq!(members[1].0, "entries");
    assert_eq!(
        members[1].1,
        Json::Array(vec![
            entry_json(&folder.entries[0]),
            record(vec![
                ("name", text("a.md")),
                ("type", text("file")),
                ("last_modified", text("1970-01-01T00:00:00Z")),
                ("size", Json::Int(5)),
            ]),
        ])
    );
}

#[test]
fn a_health_document_holds_the_restarts_under_the_supervisor() {
    let mut restarts = SortedMap::new();
    restarts.insert("vault_scanner".into(), 2);
    restarts.insert("http_server".into(), 0);
    let health = HealthResponse {
        vault_path: "/vault".into(),
        note_count: 4,
        last_index_update_ts: Some("t".into()),
        last_event_ts: None,
        watcher_state: "running",
        in_flight_rescan: false,
        restarts,
    };
    let mut counts = SortedMap::new();
    counts.insert("http_server".into(), Json::Int(0));
    counts.insert("vault_scanner".into(), Json::Int(2));
    assert_eq!(
        health_json(&health),
        record(vec![
            ("vault_path", text("/vault")),
            ("note_count", Json::Int(4)),
            ("last_index_update_ts", text("t")),
            ("last_event_ts", Json::Null),
            ("watcher_state", text("running")),
            ("in_flight_rescan", Json::Bool(false)),
            (
                "supervisor",
                record(vec![("restarts", Json::Object(counts))])
            ),
        ])
    );
}
