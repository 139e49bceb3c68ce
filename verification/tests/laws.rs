use anwesen::cli::LogLevel;
use anwesen::dates::Instant;
use anwesen::http::{get_query, Body, RequestHeaders};
use anwesen::oneshot::merge;
use anwesen::paths::relative;
use anwesen::query::{execute, execute_merge, parse};
use anwesen::store::NoteStore;
use anwesen::vault::{scan, scan_from, split_frontmatter, wanted, FileRead, WalkItem};
use anwesen::watcher::{
    absolute_path, build_index_batch, map_event, Event, EventKind, EventPath, ReadBatch,
    ReadUpsert, WatchAction,
};

const ROOT: &[u8] = b"/vault";

fn file(body: &str) -> FileRead {
    FileRead {
        raw_bytes: body.as_bytes().to_vec(),
        modified: Instant::from_timestamp(0, 0).unwrap(),
    }
}

fn walk(files: &[(&str, &str)]) -> Vec<WalkItem> {
    files
        .iter()
        .map(|(rel, body)| {
            let path = format!("/vault/{rel}").into_bytes();
            let read = if wanted(true, &path) {
                Some(Ok(file(body)))
            } else {
                None
            };
            WalkItem::Entry {
                path,
                is_file: true,
                read,
            }
        })
        .collect()
}

fn store() -> NoteStore {
    let mut store = NoteStore::new();
    store.replace(
        scan(
            ROOT,
            walk(&[
                ("a.md", "---\nkind: x\nnum: 2\n---\nA\n"),
                ("b.md", "---\nkind: y\nnum: 1\n---\nB\n"),
                ("d/c.md", "---\nkind: [x, z]\n---\nC\n"),
                ("e.md", "E\n"),
            ]),
        )
        .notes,
    );
    store
}

fn matched(raw: &str) -> Vec<String> {
    execute(&store(), &parse(raw).unwrap(), |_at| String::new())
        .results
        .into_iter()
        .map(|row| row.path)
        .collect()
}

fn read_double(s: &str) -> Option<u64> {
    s.parse::<f64>().ok().map(f64::to_bits)
}

#[test]
fn each_note_meets_a_predicate_or_its_opposite() {
    assert_eq!(matched("kind=x"), vec!["a.md", "d/c.md"]);
    assert_eq!(matched("kind__not=x"), vec!["b.md", "e.md"]);
}

#[test]
fn being_in_a_list_of_one_is_being_equal() {
    assert_eq!(matched("kind__in=x"), matched("kind=x"));
    assert_eq!(matched("kind__in= x , y"), vec!["a.md", "b.md", "d/c.md"]);
}

#[test]
fn order_and_kind_do_not_select() {
    assert_eq!(
        matched("__anw-order=num:desc&__anw-kind=kind"),
        matched("")
    );
}

#[test]
fn recursion_only_adds_notes() {
    assert_eq!(matched("__anw-recursive=false"), vec!["a.md", "b.md", "e.md"]);
    assert_eq!(matched(""), vec!["a.md", "b.md", "d/c.md", "e.md"]);
}

#[test]
fn a_limit_keeps_the_first_rows() {
    assert_eq!(matched("__anw-limit=3"), vec!["a.md", "b.md", "d/c.md"]);
    assert!(matched("__anw-limit=0").is_empty());
}

#[test]
fn a_merge_is_the_same_served_and_offline() {
    let files = || {
        walk(&[
            ("a.md", "---\nnum: 2\n---\nA\n"),
            ("b.md", "---\nnum: 1\n---\nB\n"),
        ])
    };
    let raw = "__anw-order=num";
    let offline = merge(ROOT, files(), raw, read_double).unwrap();
    assert_eq!(
        offline,
        "<!-- source: b.md -->\nB\n\n\n<!-- source: a.md -->\nA\n"
    );
    let mut store = NoteStore::new();
    store.replace(scan(ROOT, files()).notes);
    let markdown = RequestHeaders {
        accept: vec![b"text/markdown".to_vec()],
        if_none_match: None,
    };
    let Body::Text(served) = get_query(&store, raw, &markdown, read_double).body else {
        panic!("expected text");
    };
    assert_eq!(offline, served);
}

#[test]
fn splitting_loses_nothing_of_the_source() {
    let (front, body) = split_frontmatter("---\nk: 1\n---\nbody\n");
    assert_eq!(
        format!("---\n{front}---\n{body}"),
        "---\nk: 1\n---\nbody\n"
    );
}

#[test]
fn a_scan_accounts_for_every_file() {
    let result = scan_from(
        ROOT,
        walk(&[("a.md", "ok"), ("bad.md", "---\n[\n---\n"), ("c.txt", "no")]),
    );
    assert_eq!(result.notes.len() + result.issues.len(), 2);
    assert_eq!(result.notes[0].raw_bytes, b"ok".to_vec());
}

#[test]
fn a_note_that_is_read_again_keeps_its_path() {
    for native in ["/vault/d/b.md", "/vault//d/./b.md", "/vault/d//b.md/"] {
        let event = Event {
            kind: EventKind::Create,
            rescan: false,
            paths: vec![EventPath {
                path: native.as_bytes().to_vec(),
                is_dir: false,
                exists: true,
            }],
        };
        let actions = map_event(&event, ROOT);
        let [WatchAction::Upsert(path)] = actions.as_slice() else {
            panic!("expected one upsert: {actions:?}");
        };
        let batch = build_index_batch(
            ROOT,
            ReadBatch {
                upserts: vec![ReadUpsert {
                    path: path.clone(),
                    read: Ok(file("x")),
                }],
                deletes: vec![],
                upsert_trees: vec![],
                delete_trees: vec![],
            },
        );
        assert_eq!(&batch.upserts[0].path, path, "{native}");
    }
}

#[test]
fn a_backslash_leads_to_another_file() {
    let event = Event {
        kind: EventKind::Create,
        rescan: false,
        paths: vec![EventPath {
            path: b"/vault/d\\b.md".to_vec(),
            is_dir: false,
            exists: true,
        }],
    };
    assert_eq!(
        map_event(&event, ROOT),
        vec![WatchAction::Upsert("d/b.md".into())]
    );
    assert_eq!(absolute_path(ROOT, "d/b.md"), b"/vault/d/b.md".to_vec());
}

#[test]
fn log_levels_have_their_directives() {
    assert_eq!(LogLevel::Error.as_filter_directive(), "error");
    assert_eq!(LogLevel::Warn.as_filter_directive(), "warn");
    assert_eq!(LogLevel::Info.as_filter_directive(), "info");
    assert_eq!(LogLevel::Debug.as_filter_directive(), "debug");
    assert_eq!(LogLevel::Trace.as_filter_directive(), "trace");
}

#[test]
fn a_limited_merge_is_the_beginning_of_the_whole() {
    let s = store();
    let merged = |raw: &str| execute_merge(&s, &parse(raw).unwrap());
    let whole = merged("__anw-order=num:desc").unwrap();
    let parts: Vec<String> = ["a.md", "b.md", "d/c.md", "e.md"]
        .iter()
        .zip(["A\n", "B\n", "C\n", "E\n"])
        .map(|(path, body)| format!("<!-- source: {path} -->\n{body}"))
        .collect();
    assert_eq!(whole, parts.join("\n\n"));
    for n in 0..6 {
        let kept = if n < 4 { n } else { 4 };
        let cut = merged(&format!("__anw-order=num:desc&__anw-limit={n}"));
        assert_eq!(cut.unwrap(), parts[..kept].join("\n\n"));
    }
    let refused = |raw: &str| format!("{:?}", merged(raw).unwrap_err());
    assert_eq!(
        refused("__anw-kind=kind"),
        refused("__anw-kind=kind&__anw-limit=1")
    );
}

#[test]
fn a_directory_walked_alone_gives_its_part_of_the_vault() {
    let files = [
        ("a.md", "A"),
        ("d/b.md", "B"),
        ("d/bad.md", "---\n:: :: ::\n---\n"),
        ("d/list.md", "---\n- x\n---\n"),
        ("d/e/c.md", "C"),
        ("d.md", "D"),
        ("de/f.md", "F"),
        ("de/bad.md", "---\n:: :: ::\n---\n"),
    ];
    let below: Vec<(&str, &str)> = files
        .iter()
        .filter(|(path, _)| path.starts_with("d/"))
        .copied()
        .collect();
    let whole = scan(ROOT, walk(&files));
    let part = scan_from(ROOT, walk(&below));
    let under: Vec<&str> = whole
        .notes
        .iter()
        .map(|n| n.path.as_str())
        .filter(|p| p.starts_with("d/"))
        .collect();
    let found: Vec<&str> = part.notes.iter().map(|n| n.path.as_str()).collect();
    assert_eq!(found, vec!["d/b.md", "d/list.md", "d/e/c.md"]);
    assert_eq!(found, under);
    assert_eq!(part.issues.len(), 1);
    assert_eq!(part.issues[0].path, b"/vault/d/bad.md".to_vec());
    assert_eq!(part.warnings.len(), 1);
    assert_eq!(whole.issues.len(), 2);
}

#[test]
fn order_and_kind_change_no_row() {
    let s = store();
    let rows = |raw: &str| {
        format!(
            "{:?}",
            execute(&s, &parse(raw).unwrap(), |at| format!("{at:?}"))
        )
    };
    assert_eq!(
        rows("kind__exists=true"),
        rows("kind__exists=true&__anw-order=num:desc&__anw-kind=kind")
    );
}

#[test]
fn a_path_that_is_made_absolute_is_told_back() {
    for root in [&b"/vault"[..], b"/", b"/vault/", b"", b"rel/./root"] {
        for rel in ["a.md", "d/e/f.md", "\u{e4}\u{20ac}/\u{1f4d3} x.md", "d/a.b/c.d"] {
            let abs = absolute_path(root, rel);
            assert_eq!(relative(root, &abs), Some(rel.to_string()));
        }
    }
    for rel in [".hidden/a.md", "d/.a.md", "d\\a.md"] {
        let abs = absolute_path(ROOT, rel);
        assert_ne!(relative(ROOT, &abs), Some(rel.to_string()));
    }
}

#[test]
fn a_real_walk_of_a_directory_compares_with_that_of_the_vault() {
    let passed = |path: &str| WalkItem::Entry {
        path: path.as_bytes().to_vec(),
        is_file: false,
        read: None,
    };
    let mut whole = vec![passed("/vault"), passed("/vault/d")];
    whole.extend(walk(&[
        ("a.md", "A"),
        ("d/b.md", "B"),
        ("d/e/c.md", "C"),
        ("d/pic.png", "no note"),
        ("de.md", "D"),
    ]));
    let mut part = vec![passed("/vault/d"), passed("/vault/d/e")];
    part.extend(walk(&[("d/e/c.md", "C"), ("d/b.md", "B")]));
    let facts = |n: &anwesen::vault::Note| (n.path.clone(), n.body.clone(), n.etag.clone(), n.size);
    let mut found: Vec<_> = scan_from(ROOT, part).notes.iter().map(facts).collect();
    let mut under: Vec<_> = scan(ROOT, whole)
        .notes
        .iter()
        .filter(|n| n.path.starts_with("d/"))
        .map(facts)
        .collect();
    found.sort();
    under.sort();
    assert_eq!(found.len(), 2);
    assert_eq!(found, under);
}
