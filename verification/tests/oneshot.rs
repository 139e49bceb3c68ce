use anwesen::dates::Instant;
use anwesen::http::{get_query, Body, RequestHeaders};
use anwesen::json::Json;
use anwesen::oneshot::{merge, query_json, OneshotError};
use anwesen::query::{execute, execute_merge, parse, rfc3339_z, QueryResponse};
use anwesen::store::NoteStore;
use anwesen::vault::{scan, wanted, FileRead, WalkItem};

const ROOT: &[u8] = b"/vault";

fn walk(files: &[(&str, &str)]) -> Vec<WalkItem> {
    files
        .iter()
        .map(|(rel, body)| {
            let path = format!("/vault/{rel}").into_bytes();
            let read = if wanted(true, &path) {
                Some(Ok(FileRead {
                    raw_bytes: body.as_bytes().to_vec(),
                    modified: Instant::from_timestamp(0, 0).unwrap(),
                }))
            } else {
                None
            };
            WalkItem::Entry {
                path,
                is_file: true,
                read,
            }
        })
        .collect()
}

fn read_double(s: &str) -> Option<u64> {
    s.parse::<f64>().ok().map(f64::to_bits)
}

/// Every member of a response, row by row.
fn shown(r: &QueryResponse) -> String {
    format!("{r:?}")
}

#[test]
fn oneshot_merges_bodies_with_source_markers() {
    let files = walk(&[
        ("a.md", "---\nnum: 1\n---\nalpha\n"),
        ("b.md", "---\nnum: 2\n---\nbeta\n"),
    ]);
    let out = merge(ROOT, files, "", read_double).unwrap();
    assert_eq!(
        out,
        "<!-- source: a.md -->\nalpha\n\n\n<!-- source: b.md -->\nbeta\n"
    );
}

#[test]
fn oneshot_order_desc_then_path_tiebreak() {
    let files = walk(&[
        ("a.md", "---\nnum: 1\n---\nlow\n"),
        ("b.md", "---\nnum: 3\n---\nhigh\n"),
        ("c.md", "---\nnum: 2\n---\nmid\n"),
    ]);
    let out = merge(ROOT, files, "__anw-order=num:desc", read_double).unwrap();
    let bodies: Vec<&str> = out
        .lines()
        .filter(|l| !l.starts_with("<!--") && !l.is_empty())
        .collect();
    assert_eq!(bodies, vec!["high", "mid", "low"]);
}

#[test]
fn oneshot_empty_match_set_is_empty_string() {
    let files = walk(&[("a.md", "---\ntags: [x]\n---\nbody\n")]);
    assert_eq!(merge(ROOT, files, "tags=nope", read_double).unwrap(), "");
}

#[test]
fn oneshot_empty_vault_is_empty_string() {
    assert_eq!(merge(ROOT, walk(&[]), "", read_double).unwrap(), "");
}

#[test]
fn oneshot_kind_guard_passes_when_uniform() {
    let files = walk(&[
        ("a.md", "---\nkind: skill\n---\nA\n"),
        ("b.md", "---\nkind: skill\n---\nB\n"),
    ]);
    assert!(merge(ROOT, files, "__anw-kind=kind", read_double).is_ok());
}

#[test]
fn oneshot_kind_guard_rejects_distinct_values_naming_offenders() {
    let files = walk(&[
        ("a.md", "---\nkind: skill\n---\nA\n"),
        ("b.md", "---\nkind: note\n---\nB\n"),
    ]);
    let err = merge(ROOT, files, "__anw-kind=kind", read_double).unwrap_err();
    let msg = err.render("merge");
    assert!(msg.contains("distinct values found"));
    assert!(msg.contains("a.md"));
    assert!(msg.contains("b.md"));
}

#[test]
fn oneshot_kind_guard_rejects_missing_key() {
    let files = walk(&[
        ("a.md", "---\nkind: skill\n---\nA\n"),
        ("b.md", "---\n---\nB\n"),
    ]);
    let err = merge(ROOT, files, "__anw-kind=kind", read_double).unwrap_err();
    assert!(matches!(err, OneshotError::Kind(_)));
    assert!(err.render("merge").contains("notes missing the key"));
}

#[test]
fn oneshot_malformed_query_is_reported() {
    let files = walk(&[("a.md", "---\n---\nbody\n")]);
    let err = merge(ROOT, files, "x__bogus=1", read_double).unwrap_err();
    assert!(matches!(err, OneshotError::Query(_)));
    assert!(!err.render("merge").is_empty());
    assert_eq!(err.render("merge"), "unknown operator: bogus\n");
}

#[test]
fn oneshot_unparseable_frontmatter_is_a_scan_error() {
    let files = walk(&[("bad.md", "---\n:: :: ::\n---\n")]);
    let err = merge(ROOT, files, "", read_double).unwrap_err();
    assert!(matches!(err, OneshotError::Scan(_)));
    assert!(err.render("merge").contains("cannot read vault"));
    assert!(err.render("merge").contains("bad.md"));
    assert!(err
        .render("merge")
        .starts_with("merge: cannot read vault\n  /vault/bad.md: frontmatter YAML parse failed: "));
}

#[test]
fn oneshot_output_matches_http_engine_for_same_vault_and_query() {
    let files = || {
        walk(&[
            ("a.md", "---\nnum: 2\n---\nA body\n"),
            ("b.md", "---\nnum: 1\n---\nB body\n"),
        ])
    };
    let raw = "__anw-order=num:asc";
    let cli = merge(ROOT, files(), raw, read_double).unwrap();

    let mut store = NoteStore::new();
    store.replace(scan(ROOT, files()).notes);
    let parsed = parse(raw).unwrap();
    let direct = execute_merge(&store, &parsed).unwrap();
    assert_eq!(cli, direct);
}

#[test]
fn query_projects_path_frontmatter_and_file_facts() {
    let files = walk(&[(
        "Projects/alpha.md",
        "---\ntags: [project]\nversion: 2\n---\nbody\n",
    )]);
    let doc = query_json(ROOT, files, "", read_double).unwrap();
    assert_eq!(doc.total, 1);
    assert!(!doc.truncated);
    let row = &doc.results[0];
    assert_eq!(row.path, "Projects/alpha.md");
    let Json::Object(fm) = &row.frontmatter else {
        panic!("expected object");
    };
    assert_eq!(fm.get("version"), Some(&Json::Int(2)));
    assert_eq!(
        fm.get("tags"),
        Some(&Json::Array(vec![Json::String("project".into())]))
    );
    assert_eq!(row.size, 40);
    assert!(row.last_modified.ends_with('Z'), "{}", row.last_modified);
    assert!(row.etag.starts_with('"'));
}

#[test]
fn query_predicates_filter_and_limit_truncates_after_total() {
    let files = || {
        walk(&[
            ("a.md", "---\nstatus: draft\n---\nA\n"),
            ("b.md", "---\nstatus: draft\n---\nB\n"),
            ("c.md", "---\nstatus: done\n---\nC\n"),
        ])
    };
    let filtered = query_json(ROOT, files(), "status=draft", read_double).unwrap();
    assert_eq!(filtered.total, 2);
    assert_eq!(filtered.results.len(), 2);

    let capped = query_json(ROOT, files(), "status=draft&__anw-limit=1", read_double).unwrap();
    assert_eq!(capped.total, 2);
    assert!(capped.truncated);
    assert_eq!(capped.results.len(), 1);
    assert_eq!(capped.results[0].path, "a.md");
}

#[test]
fn query_empty_match_set_is_an_empty_result_list() {
    let files = walk(&[("a.md", "---\ntags: [x]\n---\nbody\n")]);
    let doc = query_json(ROOT, files, "tags=nope", read_double).unwrap();
    assert_eq!(doc.total, 0);
    assert!(!doc.truncated);
    assert!(doc.results.is_empty());
}

#[test]
fn query_malformed_query_is_reported_naming_the_subcommand() {
    let files = walk(&[("a.md", "---\n---\nbody\n")]);
    let err = query_json(ROOT, files, "x__bogus=1", read_double).unwrap_err();
    assert!(matches!(err, OneshotError::Query(_)));
    assert!(!err.render("query").is_empty());
}

#[test]
fn query_unparseable_frontmatter_is_a_scan_error() {
    let files = walk(&[("bad.md", "---\n:: :: ::\n---\n")]);
    let err = query_json(ROOT, files, "", read_double).unwrap_err();
    assert!(err.render("query").starts_with("query: cannot read vault"));
    assert!(err.render("query").contains("bad.md"));
}

#[test]
fn query_kind_guard_does_not_apply() {
    let files = || {
        walk(&[
            ("a.md", "---\nkind: skill\n---\nA\n"),
            ("b.md", "---\nkind: note\n---\nB\n"),
        ])
    };
    assert!(merge(ROOT, files(), "__anw-kind=kind", read_double).is_err());
    let doc = query_json(ROOT, files(), "__anw-kind=kind", read_double).unwrap();
    assert_eq!(doc.total, 2);
}

#[test]
fn query_output_matches_the_http_projection_byte_for_byte() {
    let files = || {
        walk(&[
            ("a.md", "---\nnum: 2\n---\nA body\n"),
            ("b.md", "---\nnum: 1\n---\nB body\n"),
        ])
    };
    let raw = "__anw-limit=1";
    let cli = query_json(ROOT, files(), raw, read_double).unwrap();

    let mut store = NoteStore::new();
    store.replace(scan(ROOT, files()).notes);
    let parsed = parse(raw).unwrap();
    let direct = execute(&store, &parsed, rfc3339_z);
    assert_eq!(shown(&cli), shown(&direct));

    let plain = RequestHeaders {
        accept: vec![],
        if_none_match: None,
    };
    let Body::Query(served) = get_query(&store, raw, &plain, read_double).body else {
        panic!("expected rows");
    };
    assert_eq!(shown(&cli), shown(&served));
}

#[test]
fn a_malformed_query_is_told_before_the_vault() {
    let files = walk(&[("bad.md", "---\n:: :: ::\n---\n")]);
    let err = merge(ROOT, files, "x__bogus=1", read_double).unwrap_err();
    assert!(matches!(err, OneshotError::Query(_)));
}

#[test]
fn warnings_do_not_stop_a_merge() {
    let files = walk(&[("a.md", "---\n- x\n---\nbody\n")]);
    assert_eq!(
        merge(ROOT, files, "", read_double).unwrap(),
        "<!-- source: a.md -->\nbody\n"
    );
}
