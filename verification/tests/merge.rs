use anwesen::dates::Instant;
use anwesen::merge::{run, MergeCliError};
use anwesen::query::{execute_merge, parse};
use anwesen::store::NoteStore;
use anwesen::vault::{scan, wanted, FileRead, WalkItem};

const ROOT: &[u8] = b"/vault";

fn walk(files: &[(&str, &str)]) -> Vec<WalkItem> {
    files
        .iter()
        .map(|(rel, body)| {
            let path = format!("/vault/{rel}").into_bytes();
            let read = if wanted(true, &path) {
                Some(Ok(FileRead {
                    raw_bytes: body.as_bytes().to_vec(),
                    modified: Instant::from_timestamp(0, 0).unwrap(),
                }))
            } else {
                None
            };
            WalkItem::Entry {
                path,
                is_file: true,
                read,
            }
        })
        .collect()
}

fn read_double(s: &str) -> Option<u64> {
    s.parse::<f64>().ok().map(f64::to_bits)
}

#[test]
fn merge_merges_bodies_with_source_markers() {
    let files = walk(&[
        ("a.md", "---\nnum: 1\n---\nalpha\n"),
        ("b.md", "---\nnum: 2\n---\nbeta\n"),
    ]);
    let out = run(ROOT, files, "", read_double).unwrap();
    assert_eq!(
        out,
        "<!-- source: a.md -->\nalpha\n\n\n<!-- source: b.md -->\nbeta\n"
    );
}

#[test]
fn merge_order_desc_then_path_tiebreak() {
    let files = walk(&[
        ("a.md", "---\nnum: 1\n---\nlow\n"),
        ("b.md", "---\nnum: 3\n---\nhigh\n"),
        ("c.md", "---\nnum: 2\n---\nmid\n"),
    ]);
    let out = run(ROOT, files, "__anw-order=num:desc", read_double).unwrap();
    let bodies: Vec<&str> = out
        .lines()
        .filter(|l| !l.starts_with("<!--") && !l.is_empty())
        .collect();
    assert_eq!(bodies, vec!["high", "mid", "low"]);
}

#[test]
fn merge_empty_match_set_is_empty_string() {
    let files = walk(&[("a.md", "---\ntags: [x]\n---\nbody\n")]);
    assert_eq!(run(ROOT, files, "tags=nope", read_double).unwrap(), "");
}

#[test]
fn merge_empty_vault_is_empty_string() {
    assert_eq!(run(ROOT, walk(&[]), "", read_double).unwrap(), "");
}

#[test]
fn kind_guard_passes_when_uniform() {
    let files = walk(&[
        ("a.md", "---\nkind: skill\n---\nA\n"),
        ("b.md", "---\nkind: skill\n---\nB\n"),
    ]);
    assert!(run(ROOT, files, "__anw-kind=kind", read_double).is_ok());
}

#[test]
fn merge_kind_guard_rejects_distinct_values_naming_offenders() {
    let files = walk(&[
        ("a.md", "---\nkind: skill\n---\nA\n"),
        ("b.md", "---\nkind: note\n---\nB\n"),
    ]);
    let err = run(ROOT, files, "__anw-kind=kind", read_double).unwrap_err();
    let msg = err.render();
    assert!(msg.contains("distinct values found"));
    assert!(msg.contains("a.md"));
    assert!(msg.contains("b.md"));
}

#[test]
fn kind_guard_rejects_missing_key() {
    let files = walk(&[
        ("a.md", "---\nkind: skill\n---\nA\n"),
        ("b.md", "---\n---\nB\n"),
    ]);
    let err = run(ROOT, files, "__anw-kind=kind", read_double).unwrap_err();
    assert!(matches!(err, MergeCliError::Kind(_)));
    assert!(err.render().contains("notes missing the key"));
}

#[test]
fn merge_malformed_query_is_reported() {
    let files = walk(&[("a.md", "---\n---\nbody\n")]);
    let err = run(ROOT, files, "x__bogus=1", read_double).unwrap_err();
    assert!(matches!(err, MergeCliError::Query(_)));
    assert!(!err.render().is_empty());
    assert_eq!(err.render(), "unknown operator: bogus\n");
}

#[test]
fn merge_unparseable_frontmatter_is_a_scan_error() {
    let files = walk(&[("bad.md", "---\n:: :: ::\n---\n")]);
    let err = run(ROOT, files, "", read_double).unwrap_err();
    assert!(matches!(err, MergeCliError::Scan(_)));
    assert!(err.render().contains("cannot read vault"));
    assert!(err.render().contains("bad.md"));
    assert!(err
        .render()
        .starts_with("merge: cannot read vault\n  /vault/bad.md: frontmatter YAML parse failed: "));
}

#[test]
fn merge_output_matches_http_engine_for_same_vault_and_query() {
    let files = || {
        walk(&[
            ("a.md", "---\nnum: 2\n---\nA body\n"),
            ("b.md", "---\nnum: 1\n---\nB body\n"),
        ])
    };
    let raw = "__anw-order=num:asc";
    let cli = run(ROOT, files(), raw, read_double).unwrap();

    let mut store = NoteStore::new();
    store.replace(scan(ROOT, files()).notes);
    let parsed = parse(raw).unwrap();
    let direct = execute_merge(&store, &parsed).unwrap();
    assert_eq!(cli, direct);
}
