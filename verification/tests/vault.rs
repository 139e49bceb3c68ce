use anwesen::dates::{Date, DateTime, Instant};
use anwesen::json::{frontmatter_to_json, Json};
use anwesen::sorted::SortedMap;
use anwesen::value::{Float, Value};
use anwesen::vault::{
    coerce, coerce_string, enters, frontmatter_of, scan, scan_from, scan_one, split_frontmatter,
    wanted, FileRead, ReadFailure, ScanIssueKind, ScanWarningKind, WalkItem,
};
use anwesen::yaml::{Yaml, YamlKey, YamlNumber};

const ROOT: &[u8] = b"/vault";

fn epoch() -> Instant {
    Instant::from_timestamp(0, 0).unwrap()
}

fn entry(rel: &str, bytes: &[u8]) -> WalkItem {
    let path = format!("/vault/{rel}").into_bytes();
    let read = if wanted(true, &path) {
        Some(Ok(FileRead {
            raw_bytes: bytes.to_vec(),
            modified: epoch(),
        }))
    } else {
        None
    };
    WalkItem::Entry {
        path,
        is_file: true,
        read,
    }
}

/// A walk through files in memory, pruned as the real one is.
fn walk(files: &[(&str, &str)]) -> Vec<WalkItem> {
    files
        .iter()
        .filter(|(rel, _)| rel.split('/').all(|name| enters(1, name.as_bytes())))
        .map(|(rel, body)| entry(rel, body.as_bytes()))
        .collect()
}

#[test]
fn skips_non_markdown_and_dot_directories() {
    let result = scan(
        ROOT,
        walk(&[
            ("kept.md", "---\ntags: [a]\n---\nbody\n"),
            ("skipped.txt", "not markdown"),
            (".obsidian/workspace.json", "{}"),
            (".git/HEAD", "ref: refs/heads/main"),
            (".trash/old.md", "---\n---\n"),
            ("nested/.hidden/secret.md", "---\n---\n"),
        ]),
    );
    let paths: Vec<&str> = result.notes.iter().map(|n| n.path.as_str()).collect();
    assert_eq!(paths, vec!["kept.md"]);
    assert!(result.issues.is_empty(), "issues: {:?}", result.issues);
}

#[test]
fn parses_frontmatter_and_separates_body() {
    let result = scan(
        ROOT,
        walk(&[(
            "x.md",
            "---\ntitle: Hello\ntags: [a, b]\n---\nthe body\n",
        )]),
    );
    assert_eq!(result.notes.len(), 1);
    let n = &result.notes[0];
    assert_eq!(n.path, "x.md");
    assert_eq!(n.body, "the body\n");
    assert_eq!(
        n.frontmatter.get("title"),
        Some(&Value::String("Hello".into()))
    );
    let tags = n.frontmatter.get("tags").expect("tags present");
    match tags {
        Value::Sequence(s) => {
            assert_eq!(s.len(), 2);
            assert_eq!(s[0], Value::String("a".into()));
        }
        _ => panic!("tags should be a sequence: {tags:?}"),
    }
}

#[test]
fn coerces_iso_dates_and_rfc3339_datetimes() {
    let result = scan(
        ROOT,
        walk(&[(
            "d.md",
            "---\ndate: 2026-05-14\nstamp: 2026-05-14T10:14:22Z\nplain: not-a-date\n---\n",
        )]),
    );
    assert_eq!(result.notes.len(), 1);
    let fm = &result.notes[0].frontmatter;
    match fm.get("date").unwrap() {
        Value::Date(d) => {
            assert_eq!(d.format(), "2026-05-14");
        }
        other => panic!("expected Date: {other:?}"),
    }
    match fm.get("stamp").unwrap() {
        Value::DateTime(dt) => {
            assert_eq!(dt.debug_text(), "2026-05-14T10:14:22+00:00");
        }
        other => panic!("expected DateTime: {other:?}"),
    }
    assert_eq!(
        fm.get("plain"),
        Some(&Value::String("not-a-date".into())),
        "non-date strings stay strings"
    );
}

#[test]
fn etag_is_blake3_of_raw_bytes() {
    let src = "---\ntags: [a]\n---\nbody\n";
    let result = scan(ROOT, walk(&[("x.md", src)]));
    let n = &result.notes[0];
    let expected = format!("\"{}\"", blake3::hash(src.as_bytes()).to_hex());
    assert_eq!(n.etag, expected);
    assert_eq!(n.raw_bytes, src.as_bytes());
    assert_eq!(n.size, src.len() as u64);
}

#[test]
fn the_same_bytes_have_the_same_etag_anywhere() {
    let result = scan(ROOT, walk(&[("a.md", "x"), ("b/c.md", "x"), ("d.md", "y")]));
    assert_eq!(result.notes[0].etag, result.notes[1].etag);
    assert!(result.notes[0].etag != result.notes[2].etag);
}

#[test]
fn malformed_frontmatter_becomes_scan_issue() {
    let result = scan(
        ROOT,
        walk(&[("bad.md", "---\ntags: [a, b\nkey: : :\n---\n")]),
    );
    assert!(result.notes.is_empty());
    assert_eq!(result.issues.len(), 1);
    assert!(matches!(
        result.issues[0].kind,
        ScanIssueKind::FrontmatterParse(_)
    ));
    assert!(result.issues[0]
        .kind
        .message()
        .starts_with("frontmatter YAML parse failed: "));
}

#[test]
fn file_without_frontmatter_block_is_kept() {
    let result = scan(ROOT, walk(&[("plain.md", "just a body, no frontmatter\n")]));
    assert_eq!(result.notes.len(), 1);
    let n = &result.notes[0];
    assert!(n.frontmatter.is_empty());
    assert_eq!(n.body, "just a body, no frontmatter\n");
}

#[test]
fn relative_paths_are_forward_slash_separated() {
    let result = scan(ROOT, walk(&[("Projects/anwesen/note.md", "---\n---\n")]));
    assert_eq!(result.notes.len(), 1);
    assert_eq!(result.notes[0].path, "Projects/anwesen/note.md");
}

#[test]
fn split_frontmatter_handles_closing_at_eof() {
    let (yaml, body) = split_frontmatter("---\nkey: val\n---");
    assert_eq!(yaml, "key: val\n");
    assert_eq!(body, "");
}

#[test]
fn split_frontmatter_no_close_falls_back_to_body() {
    let (yaml, body) = split_frontmatter("---\nkey: val\nno close here\n");
    assert!(yaml.is_empty());
    assert!(body.starts_with("---\n"));
}

#[test]
fn split_frontmatter_closes_on_a_whole_line_only() {
    let (yaml, body) = split_frontmatter("---\na: 1\n----\n --- \n---x\n---\nb\n---\n");
    assert_eq!(yaml, "a: 1\n----\n --- \n---x\n");
    assert_eq!(body, "b\n---\n");
    let (yaml, body) = split_frontmatter("---\n---\nbody\n");
    assert_eq!(yaml, "");
    assert_eq!(body, "body\n");
    let (yaml, body) = split_frontmatter("\n---\na: 1\n---\n");
    assert_eq!(yaml, "");
    assert_eq!(body, "\n---\na: 1\n---\n");
}

#[test]
fn vault_value_to_json_coerces_dates_to_iso_strings() {
    let d = Date::from_ymd_opt(2026, 5, 14).unwrap();
    assert_eq!(
        Value::Date(d).to_json(),
        Json::String("2026-05-14".into())
    );

    let dt = DateTime::parse_from_rfc3339("2026-05-14T10:14:22Z").unwrap();
    assert_eq!(
        Value::DateTime(dt).to_json(),
        Json::String("2026-05-14T10:14:22Z".into())
    );
    let dt2 = DateTime::parse_from_rfc3339("2026-05-14T12:14:22+02:00").unwrap();
    assert_eq!(
        Value::DateTime(dt).to_json(),
        Value::DateTime(dt2).to_json()
    );
    assert_eq!(Value::DateTime(dt), Value::DateTime(dt2));
}

#[test]
fn value_to_json_emits_flat_yaml_natural_shape() {
    let v = Value::Sequence(vec![Value::String("a".into()), Value::String("b".into())]);
    let j = v.to_json();
    assert_eq!(
        j,
        Json::Array(vec![Json::String("a".into()), Json::String("b".into())])
    );
}

#[test]
fn vault_value_to_json_handles_nested_structures() {
    let mut inner = SortedMap::new();
    inner.insert("name".into(), Value::String("brn".into()));
    let v = Value::Mapping(inner);
    let j = v.to_json();
    let Json::Object(obj) = j else {
        panic!("expected object");
    };
    assert_eq!(obj.get("name"), Some(&Json::String("brn".into())));
}

#[test]
fn doubles_that_json_cannot_write_become_null() {
    let float = |x: f64| {
        Value::Float(Float {
            bits: x.to_bits(),
            text: x.to_string(),
            debug: format!("{x:?}"),
        })
    };
    assert_eq!(float(f64::INFINITY).to_json(), Json::Null);
    assert_eq!(float(f64::NEG_INFINITY).to_json(), Json::Null);
    assert_eq!(float(f64::NAN).to_json(), Json::Null);
    assert!(matches!(float(1.5).to_json(), Json::Float(f) if f.bits == 1.5f64.to_bits()));
    assert_eq!(Value::Null.to_json(), Json::Null);
    assert_eq!(Value::Bool(true).to_json(), Json::Bool(true));
    assert_eq!(Value::Int(-3).to_json(), Json::Int(-3));
}

#[test]
fn yaml_numbers_become_integers_or_doubles() {
    let result = scan(
        ROOT,
        walk(&[(
            "n.md",
            "---\ni: -5\nf: 1.5\nbig: 18446744073709551615\nb: true\nn: null\n---\n",
        )]),
    );
    let fm = &result.notes[0].frontmatter;
    assert_eq!(fm.get("i"), Some(&Value::Int(-5)));
    assert_eq!(fm.get("b"), Some(&Value::Bool(true)));
    assert_eq!(fm.get("n"), Some(&Value::Null));
    match fm.get("f").unwrap() {
        Value::Float(f) => {
            assert_eq!(f.bits, 1.5f64.to_bits());
            assert_eq!(f.text, "1.5");
            assert_eq!(f.debug, "1.5");
        }
        other => panic!("expected Float: {other:?}"),
    }
    match fm.get("big").unwrap() {
        Value::Float(f) => assert_eq!(f.bits, 18446744073709551615f64.to_bits()),
        other => panic!("expected Float: {other:?}"),
    }
}

#[test]
fn yaml_keys_become_text() {
    let result = scan(
        ROOT,
        walk(&[(
            "k.md",
            "---\n1: a\ntrue: b\nnull: c\n2.5: d\n[x, y]: e\n---\n",
        )]),
    );
    assert!(result.issues.is_empty(), "{:?}", result.issues);
    let fm = &result.notes[0].frontmatter;
    assert_eq!(fm.get("1"), Some(&Value::String("a".into())));
    assert_eq!(fm.get("true"), Some(&Value::String("b".into())));
    assert_eq!(fm.get("null"), Some(&Value::String("c".into())));
    assert_eq!(fm.get("2.5"), Some(&Value::String("d".into())));
    assert_eq!(fm.get("- x\n- y"), Some(&Value::String("e".into())));
}

#[test]
fn yaml_tags_are_dropped() {
    let result = scan(ROOT, walk(&[("t.md", "---\nk: !thing 5\n---\n")]));
    assert_eq!(
        result.notes[0].frontmatter.get("k"),
        Some(&Value::Int(5))
    );
}

#[test]
fn a_yaml_tree_becomes_a_value() {
    let tree = Yaml::Mapping(vec![
        (YamlKey::Bool(true), Yaml::Sequence(vec![Yaml::Null])),
        (
            YamlKey::Other("  - a \n".into()),
            Yaml::Tagged(Box::new(Yaml::Bool(false))),
        ),
        (YamlKey::Null, Yaml::String("2026-13-01".into())),
        (
            YamlKey::String("n".into()),
            Yaml::Number(YamlNumber {
                int: None,
                float: None,
                text: "odd".into(),
            }),
        ),
        (YamlKey::Bool(true), Yaml::String("last".into())),
    ]);
    let Value::Mapping(m) = coerce(&tree) else {
        panic!("expected mapping");
    };
    assert_eq!(m.len(), 4);
    assert_eq!(m.get("true"), Some(&Value::String("last".into())));
    assert_eq!(m.get("- a"), Some(&Value::Bool(false)));
    assert_eq!(m.get("null"), Some(&Value::String("2026-13-01".into())));
    assert_eq!(m.get("n"), Some(&Value::String("odd".into())));
}

#[test]
fn a_document_that_is_no_mapping_is_a_warning() {
    let (fm, warning) = frontmatter_of(Ok(Yaml::Sequence(vec![]))).unwrap();
    assert!(fm.is_empty());
    assert_eq!(warning, Some(ScanWarningKind::FrontmatterNotMapping));
    assert_eq!(
        warning.unwrap().message(),
        "frontmatter root is not a YAML mapping"
    );
    let (fm, warning) = frontmatter_of(Ok(Yaml::Mapping(vec![(
        YamlKey::String("a".into()),
        Yaml::Null,
    )])))
    .unwrap();
    assert_eq!(fm.get("a"), Some(&Value::Null));
    assert_eq!(warning, None);
    assert_eq!(
        frontmatter_of(Err("boom".into())).unwrap_err(),
        ScanIssueKind::FrontmatterParse("boom".into())
    );
}

#[test]
fn files_that_are_not_text_are_issues() {
    let result = scan(ROOT, vec![entry("a.md", &[0xff, 0xfe])]);
    assert_eq!(result.issues[0].kind, ScanIssueKind::NonUtf8Body);
    assert_eq!(
        result.issues[0].kind.message(),
        "file body is not valid UTF-8"
    );
    let mut path = b"/vault/".to_vec();
    path.extend([0xff, b'.', b'm', b'd']);
    let kind = scan_one(
        ROOT,
        &path,
        Ok(FileRead {
            raw_bytes: b"x".to_vec(),
            modified: epoch(),
        }),
    )
    .unwrap_err();
    assert_eq!(kind, ScanIssueKind::NonUtf8Path);
    assert_eq!(kind.message(), "path is not valid UTF-8");
}

#[test]
fn walk_failures_and_read_failures_are_issues() {
    let result = scan_from(
        ROOT,
        vec![
            WalkItem::Failed {
                path: vec![],
                message: "loop".into(),
            },
            WalkItem::Entry {
                path: b"/vault/a.md".to_vec(),
                is_file: true,
                read: Some(Err(ReadFailure {
                    message: "gone".into(),
                    not_found: true,
                })),
            },
            WalkItem::Entry {
                path: b"/vault/dir.md".to_vec(),
                is_file: false,
                read: None,
            },
        ],
    );
    assert!(result.notes.is_empty());
    assert_eq!(result.issues.len(), 2);
    assert_eq!(result.issues[0].kind.message(), "io: loop");
    assert_eq!(
        result.issues[1].kind,
        ScanIssueKind::Io {
            message: "gone".into(),
            not_found: true
        }
    );
}

#[test]
fn a_walk_in_parts_finds_the_same_notes() {
    let whole = scan(ROOT, walk(&[("a.md", "x"), ("d/b.md", "y")]));
    let part = scan_from(ROOT, walk(&[("d/b.md", "y")]));
    assert_eq!(part.notes[0].path, whole.notes[1].path);
    assert_eq!(part.notes[0].etag, whole.notes[1].etag);
}

#[test]
fn a_path_outside_the_vault_is_kept_whole() {
    let n = scan_one(
        b"/elsewhere",
        b"/vault/a\\b.md",
        Ok(FileRead {
            raw_bytes: b"x".to_vec(),
            modified: epoch(),
        }),
    )
    .unwrap();
    assert_eq!(n.path, "/vault/a/b.md");
}

#[test]
fn the_start_of_a_walk_may_have_a_dot_prefixed_name() {
    assert!(enters(0, b".tmp"));
    assert!(!enters(1, b".tmp"));
    assert!(enters(1, b"tmp."));
    assert!(enters(1, &[b'.', 0xff]));
}

#[test]
fn dates_are_told_apart_from_text() {
    assert!(matches!(coerce_string("2026-05-14"), Value::Date(_)));
    assert!(matches!(
        coerce_string("2026-05-14T10:14:22+02:00"),
        Value::DateTime(_)
    ));
    assert!(matches!(coerce_string("2026-02-30"), Value::String(_)));
    assert!(matches!(coerce_string("14.05.2026"), Value::String(_)));
}

#[test]
fn frontmatter_members_stand_in_ascending_order() {
    let mut fm = SortedMap::new();
    fm.insert("b".to_string(), Value::Int(2));
    fm.insert("a".to_string(), Value::Int(1));
    let Json::Object(m) = frontmatter_to_json(&fm) else {
        panic!("expected object");
    };
    assert_eq!(m.key_at(0), "a");
    assert_eq!(m.key_at(1), "b");
}
