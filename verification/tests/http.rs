use anwesen::app::RestartCounters;
use anwesen::dates::Instant;
use anwesen::health::{HealthState, WatcherState};
use anwesen::http::{
    answer, entry_type, etag_matches, get_health, get_notes, get_query, list_root_folder,
    resolve_folder, resolve_path, wants_markdown, Asked, Body, ContentType, Reply, RequestHeaders,
};
use anwesen::json::Json;
use anwesen::sorted::SortedMap;
use anwesen::store::NoteStore;
use anwesen::value::{Frontmatter, Value};
use anwesen::vault::Note;

fn note(path: &str, body: &str) -> Note {
    let mut fm = SortedMap::new();
    fm.insert("tag".into(), Value::String("demo".into()));
    let raw = format!("---\ntag: demo\n---\n{body}");
    let etag = format!("\"{}\"", blake3::hash(raw.as_bytes()).to_hex());
    let size = raw.len() as u64;
    Note {
        path: path.into(),
        frontmatter: fm,
        body: body.into(),
        raw_bytes: raw.into_bytes(),
        last_modified: Instant::from_timestamp(0, 0).unwrap(),
        etag,
        size,
    }
}

fn note_fm(path: &str, fm: Frontmatter, body: &str) -> Note {
    let raw = format!("---\n# fm\n---\n{body}");
    let etag = format!("\"{}\"", blake3::hash(raw.as_bytes()).to_hex());
    let size = raw.len() as u64;
    Note {
        path: path.into(),
        frontmatter: fm,
        body: body.into(),
        raw_bytes: raw.into_bytes(),
        last_modified: Instant::from_timestamp(0, 0).unwrap(),
        etag,
        size,
    }
}

fn kind_fm(kind: &str) -> Frontmatter {
    let mut fm = SortedMap::new();
    fm.insert("kind".into(), Value::String(kind.into()));
    fm
}

fn store_with(notes: Vec<Note>) -> NoteStore {
    let mut store = NoteStore::new();
    store.replace(notes);
    store
}

fn plain() -> RequestHeaders {
    RequestHeaders {
        accept: vec![],
        if_none_match: None,
    }
}

fn accepting(accept: &str) -> RequestHeaders {
    RequestHeaders {
        accept: vec![accept.as_bytes().to_vec()],
        if_none_match: None,
    }
}

fn matching(tag: &str) -> RequestHeaders {
    RequestHeaders {
        accept: vec![],
        if_none_match: Some(tag.as_bytes().to_vec()),
    }
}

fn read_double(s: &str) -> Option<u64> {
    s.parse::<f64>().ok().map(f64::to_bits)
}

fn names(r: &Reply) -> Vec<&str> {
    match &r.body {
        Body::Folder(f) => f.entries.iter().map(|e| e.name.as_str()).collect(),
        other => panic!("expected a folder: {other:?}"),
    }
}

#[test]
fn unknown_path_returns_404() {
    let r = get_notes(&store_with(vec![]), "missing.md", &plain());
    assert_eq!(r.status, 404);
}

#[test]
fn double_dot_rejected_with_400() {
    let s = store_with(vec![note("a.md", "x")]);
    let r = get_notes(&s, "../etc/passwd", &plain());
    assert_eq!(r.status, 400);
}

#[test]
fn percent_encoded_path_decoded_once() {
    let s = store_with(vec![note("dir with space/a.md", "x")]);
    let r = get_notes(&s, "dir%20with%20space/a.md", &plain());
    assert_eq!(r.status, 200);
}

#[test]
fn an_encoded_percent_sign_stays_a_percent_sign() {
    let s = store_with(vec![note("a%20b.md", "x")]);
    assert_eq!(get_notes(&s, "a%2520b.md", &plain()).status, 200);
    assert_eq!(get_notes(&s, "a%20b.md", &plain()).status, 404);
}

#[test]
fn default_response_is_json_with_etag_header() {
    let n = note("a.md", "body");
    let expected_etag = n.etag.clone();
    let r = get_notes(&store_with(vec![n]), "a.md", &plain());
    assert_eq!(r.status, 200);
    assert_eq!(r.content_type.unwrap().as_str(), "application/json");
    assert_eq!(r.etag.unwrap(), expected_etag);
    let Body::Note(v) = r.body else {
        panic!("expected a note");
    };
    assert_eq!(v.path, "a.md");
    assert_eq!(v.body, "body");
    assert!(matches!(v.frontmatter, Json::Object(_)));
    assert_eq!(v.last_modified, "1970-01-01T00:00:00Z");
    assert_eq!(v.etag, expected_etag);
    assert_eq!(v.size, 22);
}

#[test]
fn accept_text_markdown_returns_raw_bytes() {
    let n = note("a.md", "body");
    let raw = n.raw_bytes.clone();
    let r = get_notes(&store_with(vec![n]), "a.md", &accepting("text/markdown"));
    assert_eq!(r.status, 200);
    assert_eq!(
        r.content_type.unwrap().as_str(),
        "text/markdown; charset=utf-8"
    );
    let Body::Bytes(bytes) = r.body else {
        panic!("expected bytes");
    };
    assert_eq!(bytes, raw);
}

#[test]
fn if_none_match_returns_304() {
    let n = note("a.md", "body");
    let etag = n.etag.clone();
    let r = get_notes(&store_with(vec![n]), "a.md", &matching(&etag));
    assert_eq!(r.status, 304);
    assert_eq!(r.etag.unwrap(), etag);
    assert!(matches!(r.body, Body::Empty));
}

#[test]
fn if_none_match_star_returns_304() {
    let s = store_with(vec![note("a.md", "body")]);
    let r = get_notes(&s, "a.md", &matching("*"));
    assert_eq!(r.status, 304);
}

#[test]
fn if_none_match_with_different_etag_returns_full_body() {
    let s = store_with(vec![note("a.md", "body")]);
    let r = get_notes(&s, "a.md", &matching("\"other\""));
    assert_eq!(r.status, 200);
}

#[test]
fn a_known_tag_wins_over_the_accept_header() {
    let n = note("a.md", "body");
    let h = RequestHeaders {
        accept: vec![b"text/markdown".to_vec()],
        if_none_match: Some(format!("\"x\", W/{}", n.etag).into_bytes()),
    };
    let r = get_notes(&store_with(vec![n]), "a.md", &h);
    assert_eq!(r.status, 304);
    assert!(r.content_type.is_none());
}

#[test]
fn entity_tags_are_compared_one_by_one() {
    assert!(etag_matches(b"\"a\"", "\"a\""));
    assert!(etag_matches(b"\"b\" ,\t\"a\"", "\"a\""));
    assert!(etag_matches(b"W/\"a\"", "\"a\""));
    assert!(etag_matches(b"\"b\", *", "\"a\""));
    assert!(!etag_matches(b"w/\"a\"", "\"a\""));
    assert!(!etag_matches(b"W/*", "\"a\""));
    assert!(!etag_matches(&[b'*', 0xff], "\"a\""));
    assert!(!etag_matches(b"", "\"a\""));
}

#[test]
fn markdown_is_wanted_if_any_accept_value_names_it() {
    assert!(wants_markdown(&accepting("text/html, Text/Markdown; q=0.9")));
    assert!(!wants_markdown(&accepting("text/*")));
    assert!(!wants_markdown(&plain()));
    let h = RequestHeaders {
        accept: vec![vec![0xff], b"text/markdown".to_vec()],
        if_none_match: None,
    };
    assert!(wants_markdown(&h));
}

#[test]
fn folder_listing_groups_files_and_dirs() {
    let s = store_with(vec![
        note("Projects/a.md", "x"),
        note("Projects/anwesen/Anwesen.md", "x"),
        note("Projects/anwesen/User Manual.md", "x"),
        note("Projects/anwesen/ADR/ADR-001.md", "x"),
        note("Notes/other.md", "x"),
    ]);
    let r = get_notes(&s, "Projects/anwesen/", &plain());
    assert_eq!(r.status, 200);
    assert_eq!(names(&r), vec!["ADR", "Anwesen.md", "User Manual.md"]);
    let Body::Folder(f) = r.body else {
        panic!("expected a folder");
    };
    assert_eq!(f.path, "Projects/anwesen");
    assert_eq!(entry_type(&f.entries[0]), "dir");
    assert!(f.entries[0].size.is_none());
    assert_eq!(entry_type(&f.entries[1]), "file");
    assert_eq!(f.entries[1].size.unwrap(), note("x", "x").size);
}

#[test]
fn folder_listing_root_lists_top_level() {
    let s = store_with(vec![
        note("a.md", "x"),
        note("Projects/anwesen/x.md", "x"),
        note("Notes/other.md", "x"),
    ]);
    let r = list_root_folder(&s);
    assert_eq!(r.status, 200);
    assert_eq!(names(&r), vec!["Notes", "Projects", "a.md"]);
    let Body::Folder(f) = r.body else {
        panic!("expected a folder");
    };
    assert_eq!(f.path, "");
}

#[test]
fn an_empty_vault_has_an_empty_root() {
    let r = list_root_folder(&store_with(vec![]));
    assert_eq!(r.status, 200);
    assert!(names(&r).is_empty());
}

#[test]
fn a_directory_shows_the_time_of_its_latest_note() {
    let at = |path: &str, secs: i64| {
        let mut n = note(path, "x");
        n.last_modified = Instant::from_timestamp(secs, 0).unwrap();
        n
    };
    let s = store_with(vec![at("d/a.md", 60), at("d/deep/b.md", 120), at("d/c.md", 5)]);
    let Body::Folder(f) = list_root_folder(&s).body else {
        panic!("expected a folder");
    };
    assert_eq!(f.entries.len(), 1);
    assert_eq!(f.entries[0].last_modified, "1970-01-01T00:02:00Z");
}

#[test]
fn a_file_stands_before_a_directory_of_the_same_name() {
    let s = store_with(vec![note("a.md", "x"), note("a.md/b.md", "x")]);
    let Body::Folder(f) = list_root_folder(&s).body else {
        panic!("expected a folder");
    };
    let kinds: Vec<&str> = f.entries.iter().map(entry_type).collect();
    assert_eq!(kinds, vec!["file", "dir"]);
}

#[test]
fn folder_listing_unknown_returns_404() {
    let s = store_with(vec![note("a.md", "x")]);
    let r = get_notes(&s, "no-such-folder/", &plain());
    assert_eq!(r.status, 404);
}

#[test]
fn folder_listing_double_dot_rejected_with_400() {
    let s = store_with(vec![note("a.md", "x")]);
    let r = get_notes(&s, "Projects/../etc/", &plain());
    assert_eq!(r.status, 400);
}

#[test]
fn folder_listing_prefix_does_not_match_partial_segment() {
    let s = store_with(vec![note("Projects/a.md", "x"), note("Projet/b.md", "x")]);
    let r = get_notes(&s, "Proj/", &plain());
    assert_eq!(r.status, 404);
}

#[test]
fn query_accept_markdown_merges_bodies() {
    let s = store_with(vec![note("a.md", "Body A."), note("b.md", "Body B.")]);
    let r = get_query(&s, "", &accepting("text/markdown"), read_double);
    assert_eq!(r.status, 200);
    assert_eq!(
        r.content_type.unwrap().as_str(),
        "text/markdown; charset=utf-8"
    );
    let Body::Text(text) = r.body else {
        panic!("expected text");
    };
    assert_eq!(
        text,
        "<!-- source: a.md -->\nBody A.\n\n<!-- source: b.md -->\nBody B."
    );
}

#[test]
fn query_without_accept_is_json_no_body() {
    let s = store_with(vec![note("a.md", "Body A.")]);
    let r = get_query(&s, "", &plain(), read_double);
    assert_eq!(r.status, 200);
    assert_eq!(r.content_type.unwrap().as_str(), "application/json");
    let Body::Query(v) = r.body else {
        panic!("expected rows");
    };
    assert_eq!(v.total, 1);
    assert_eq!(v.results.len(), 1);
    assert_eq!(v.results[0].path, "a.md");
}

#[test]
fn query_markdown_kind_guard_returns_400() {
    let s = store_with(vec![
        note_fm("a.md", kind_fm("PDR"), "a"),
        note_fm("b.md", kind_fm("ADR"), "b"),
    ]);
    let r = get_query(
        &s,
        "__anw-kind=kind",
        &accepting("text/markdown"),
        read_double,
    );
    assert_eq!(r.status, 400);
    let Body::Text(text) = r.body else {
        panic!("expected text");
    };
    assert!(text.contains("PDR"));
    assert!(text.contains("ADR"));
}

#[test]
fn a_malformed_query_is_a_bad_request() {
    let r = get_query(&store_with(vec![]), "x__bogus=1", &plain(), read_double);
    assert_eq!(r.status, 400);
    assert_eq!(r.content_type, Some(ContentType::Plain));
    let Body::Text(text) = r.body else {
        panic!("expected text");
    };
    assert_eq!(text, "bad request: unknown operator: bogus\n");
}

#[test]
fn resolve_path_normalizations() {
    assert_eq!(resolve_path("Notes/a.md").unwrap(), "Notes/a.md");
    assert_eq!(resolve_path("/Notes/a.md").unwrap(), "Notes/a.md");
    assert_eq!(resolve_path("////Notes/a.md").unwrap(), "Notes/a.md");
    assert_eq!(resolve_path("Notes/a%20b.md").unwrap(), "Notes/a b.md");
    assert!(resolve_path("..").is_err());
    assert!(resolve_path("a/../b").is_err());
    assert!(resolve_path("a//b").is_err());
    assert!(resolve_path("a/./b").is_err());
    assert!(resolve_path("").is_err());
    assert!(resolve_path("a/%ZZ.md").is_err());
}

#[test]
fn each_refused_path_has_its_reason() {
    assert_eq!(resolve_path("a%2"), Err("invalid percent-encoding"));
    assert_eq!(resolve_path("%ff"), Err("invalid percent-encoding"));
    assert_eq!(resolve_path("///"), Err("path is empty"));
    assert_eq!(resolve_path("a/%2e%2e"), Err("path contains forbidden segment"));
    assert_eq!(resolve_folder("///").unwrap(), "");
    assert_eq!(resolve_folder("/a").unwrap(), "a");
    assert_eq!(resolve_folder("a/.."), Err("path contains forbidden segment"));
    assert_eq!(resolve_folder("%G0"), Err("invalid percent-encoding"));
    assert_eq!(resolve_path("a+b").unwrap(), "a+b");
}

#[test]
fn health_reports_what_is_known() {
    let s = store_with(vec![note("a.md", "x")]);
    let mut health = HealthState::new();
    let mut counters = RestartCounters::new();
    counters.http_server.record_init();
    counters.http_server.record_init();
    health.record_event(Instant::from_timestamp(60, 999_000_000).unwrap());
    health.set_watcher_state(WatcherState::Degraded);
    health.set_in_flight_rescan(true);
    let r = get_health(&s, &health, &counters, &[b'/', b'v', 0xff]);
    assert_eq!(r.status, 200);
    let Body::Health(v) = r.body else {
        panic!("expected the report");
    };
    assert_eq!(v.vault_path, "/v\u{fffd}");
    assert_eq!(v.note_count, 1);
    assert_eq!(v.last_index_update_ts, None);
    assert_eq!(v.last_event_ts, Some("1970-01-01T00:01:00Z".to_string()));
    assert_eq!(v.watcher_state, "degraded");
    assert!(v.in_flight_rescan);
    assert_eq!(v.restarts.get("http_server"), Some(&1));
    assert_eq!(v.restarts.get("vault_scanner"), Some(&0));
}

#[test]
fn nothing_is_answered_before_the_index_is_ready() {
    let fresh = NoteStore::new();
    for asked in [
        Asked::Notes("a.md".into()),
        Asked::Notes("../etc".into()),
        Asked::Root,
        Asked::Query("x__bogus=1".into()),
    ] {
        let r = answer(&fresh, &asked, &plain(), read_double);
        assert_eq!(r.status, 503);
        assert_eq!(r.content_type, Some(ContentType::Plain));
        assert!(r.etag.is_none());
        assert!(matches!(r.body, Body::Text(said) if said == "index not ready, retry shortly\n"));
    }
    let health = get_health(
        &fresh,
        &HealthState::new(),
        &RestartCounters::new(),
        b"/vault",
    );
    assert_eq!(health.status, 200);
}

#[test]
fn a_ready_index_answers_what_is_asked() {
    let s = store_with(vec![note("d/a.md", "x")]);
    let status = |asked: Asked| answer(&s, &asked, &plain(), read_double).status;
    assert_eq!(status(Asked::Notes("d/a.md".into())), 200);
    assert_eq!(status(Asked::Notes("d/".into())), 200);
    assert_eq!(status(Asked::Notes("b.md".into())), 404);
    assert_eq!(status(Asked::Query("tag=demo".into())), 200);
    assert_eq!(status(Asked::Query("x__bogus=1".into())), 400);
    assert_eq!(
        names(&answer(&s, &Asked::Root, &plain(), read_double)),
        vec!["d"]
    );
    assert_eq!(
        answer(
            &store_with(vec![]),
            &Asked::Notes("a.md".into()),
            &plain(),
            read_double
        )
        .status,
        404
    );
}

#[test]
fn a_slash_asks_for_a_folder_however_it_is_written() {
    let s = store_with(vec![note("a/b.md", "x")]);
    for raw in ["a/", "a%2F", "a%2f", "%61%2F", "/a%2F"] {
        let r = get_notes(&s, raw, &plain());
        assert_eq!(r.status, 200, "{raw}");
        assert_eq!(names(&r), vec!["b.md"]);
    }
    for raw in ["/", "%2F", "%2F/"] {
        assert_eq!(names(&get_notes(&s, raw, &plain())), vec!["a"]);
    }
    assert_eq!(get_notes(&s, "a%2Fb.md", &plain()).status, 200);
    assert_eq!(get_notes(&s, "a%2F%2F", &plain()).status, 400);
    assert_eq!(get_notes(&s, "a%2F..%2F", &plain()).status, 400);
    assert_eq!(get_notes(&s, "a%252F", &plain()).status, 404);
    assert_eq!(get_notes(&s, "%/", &plain()).status, 400);
}
