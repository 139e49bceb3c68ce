use anwesen::dates::{Date, Instant};
use anwesen::doctor::{detect_path_collisions, render, run, run_and_render, PathCollision, Report};
use anwesen::drift::{value_kind, ValueKind};
use anwesen::sorted::SortedMap;
use anwesen::value::Value;
use anwesen::vault::{
    wanted, FileRead, ScanIssue, ScanIssueKind, ScanWarning, ScanWarningKind, WalkItem,
};

const ROOT: &[u8] = b"/vault";

fn walk(files: &[(&str, &str)]) -> Vec<WalkItem> {
    files
        .iter()
        .map(|(rel, body)| {
            let path = format!("/vault/{rel}").into_bytes();
            let read = if wanted(true, &path) {
                Some(Ok(FileRead {
                    raw_bytes: body.as_bytes().to_vec(),
                    modified: Instant::from_timestamp(0, 0).unwrap(),
                }))
            } else {
                None
            };
            WalkItem::Entry {
                path,
                is_file: true,
                read,
            }
        })
        .collect()
}

#[test]
fn clean_vault_reports_clean() {
    let r = run(ROOT, walk(&[("a.md", "---\ntags: [demo]\n---\nbody\n")]));
    assert!(r.is_clean(), "expected clean: {r:?}");
    assert_eq!(r.note_count, 1);
}

#[test]
fn malformed_frontmatter_reports_issue_not_warning() {
    let r = run(ROOT, walk(&[("bad.md", "---\nkey: : :\n---\n")]));
    assert!(!r.is_clean());
    assert_eq!(r.note_count, 0);
    assert_eq!(r.issues.len(), 1);
    assert!(r.warnings.is_empty());
}

#[test]
fn frontmatter_not_mapping_reports_warning_keeps_note() {
    let r = run(ROOT, walk(&[("list.md", "---\n- a\n- b\n---\nbody\n")]));
    assert_eq!(r.note_count, 1);
    assert!(r.issues.is_empty());
    assert_eq!(r.warnings.len(), 1);
    assert!(!r.is_clean());
}

#[test]
fn detect_path_collisions_finds_duplicates() {
    let dups = detect_path_collisions(&vec![
        "a.md".into(),
        "b.md".into(),
        "a.md".into(),
        "a.md".into(),
    ]);
    assert_eq!(dups.len(), 1);
    assert_eq!(dups[0].path, "a.md");
    assert_eq!(dups[0].count, 3);
}

#[test]
fn collisions_stand_in_path_order() {
    let dups = detect_path_collisions(&vec![
        "b".into(),
        "a".into(),
        "b".into(),
        "c".into(),
        "a".into(),
    ]);
    let paths: Vec<&str> = dups.iter().map(|c| c.path.as_str()).collect();
    assert_eq!(paths, vec!["a", "b"]);
    assert!(detect_path_collisions(&vec!["a".into(), "A".into()]).is_empty());
}

#[test]
fn files_whose_slashes_differ_collide() {
    let r = run(ROOT, walk(&[("d/a.md", "x"), ("d\\a.md", "y")]));
    assert_eq!(r.note_count, 2);
    assert_eq!(
        r.path_collisions,
        vec![PathCollision {
            path: "d/a.md".into(),
            count: 2
        }]
    );
    assert!(!r.is_clean());
}

#[test]
fn run_and_render_exits_zero_on_clean() {
    let (out, exit) = run_and_render(ROOT, walk(&[("a.md", "---\n---\n")]));
    assert_eq!(exit, 0);
    assert!(out.contains("OK."));
    assert!(out.contains("notes:           1"));
}

#[test]
fn run_and_render_exits_nonzero_on_issue() {
    let (out, exit) = run_and_render(ROOT, walk(&[("bad.md", "---\n:: :: ::\n---\n")]));
    assert_eq!(exit, 1);
    assert!(out.contains("FAIL."));
    assert!(out.contains("issues:"));
}

#[test]
fn report_is_written_section_by_section() {
    let report = Report {
        note_count: 12,
        issues: vec![ScanIssue {
            path: b"/vault/x.md".to_vec(),
            kind: ScanIssueKind::NonUtf8Body,
        }],
        warnings: vec![ScanWarning {
            path: vec![b'/', 0xff],
            kind: ScanWarningKind::FrontmatterNotMapping,
        }],
        path_collisions: vec![PathCollision {
            path: "a.md".into(),
            count: 2,
        }],
    };
    assert_eq!(
        render(ROOT, &report),
        "anwesen doctor: /vault\n  notes:           12\n  issues:          1\n  warnings:        1\n  path collisions: 1\n\nissues:\n  /vault/x.md: file body is not valid UTF-8\n\nwarnings:\n  /\u{fffd}: frontmatter root is not a YAML mapping\n\npath collisions:\n  a.md (2 files)\n\nFAIL.\n"
    );
    let clean = Report {
        note_count: 0,
        issues: vec![],
        warnings: vec![],
        path_collisions: vec![],
    };
    assert_eq!(
        render(ROOT, &clean),
        "anwesen doctor: /vault\n  notes:           0\n  issues:          0\n  warnings:        0\n  path collisions: 0\n\nOK.\n"
    );
}

#[test]
fn a_key_with_incompatible_types_is_reported() {
    let files = || walk(&[("a.md", "---\nk: 1\n---\n"), ("b.md", "---\nk: [x]\n---\n")]);
    let r = run(ROOT, files());
    assert_eq!(r.note_count, 2);
    assert!(r.issues.is_empty());
    assert_eq!(
        r.warnings,
        vec![ScanWarning {
            path: b"b.md".to_vec(),
            kind: ScanWarningKind::TypeDrift("k".into()),
        }]
    );
    assert!(!r.is_clean());
    let (out, exit) = run_and_render(ROOT, files());
    assert_eq!(exit, 1);
    assert!(out.contains(
        "\nwarnings:\n  b.md: frontmatter key `k` has incompatible types across notes\n"
    ));
    assert!(out.ends_with("\nFAIL.\n"));
}

#[test]
fn a_scalar_tag_and_a_list_of_tags_drift() {
    let r = run(
        ROOT,
        walk(&[
            ("drift/list-tag.md", "---\ntags: [python]\n---\n"),
            ("drift/scalar-tag.md", "---\ntags: python\n---\n"),
        ]),
    );
    assert_eq!(r.warnings.len(), 1);
    assert_eq!(r.warnings[0].path, b"drift/scalar-tag.md".to_vec());
}

#[test]
fn compatible_types_do_not_drift() {
    let r = run(
        ROOT,
        walk(&[
            (
                "a.md",
                "---\nn: 1\nd: 2026-01-01\ntags: [x]\nt: {a: 1}\ngone:\n---\n",
            ),
            (
                "b.md",
                "---\nn: 2.5\nd: 2026-01-01T10:00:00Z\ntags: [1, 2]\nt: {a: x}\ngone: text\n---\n",
            ),
            ("c.md", "---\nother: true\n---\n"),
        ]),
    );
    assert!(r.is_clean(), "expected clean: {r:?}");
}

#[test]
fn drift_is_reported_once_for_each_key_in_key_order() {
    let r = run(
        ROOT,
        walk(&[
            ("a.md", "---\nz: 1\nb: true\nm: x\n---\n"),
            ("b.md", "---\nz: 2\nb: 1\nm: y\n---\n"),
            ("c.md", "---\nz: {k: 1}\nb: text\n---\n"),
            ("d.md", "---\n- no mapping\n---\n"),
        ]),
    );
    let told: Vec<(Vec<u8>, ScanWarningKind)> = r
        .warnings
        .iter()
        .map(|w| (w.path.clone(), w.kind.clone()))
        .collect();
    assert_eq!(
        told,
        vec![
            (
                b"/vault/d.md".to_vec(),
                ScanWarningKind::FrontmatterNotMapping
            ),
            (b"b.md".to_vec(), ScanWarningKind::TypeDrift("b".into())),
            (b"c.md".to_vec(), ScanWarningKind::TypeDrift("z".into())),
        ]
    );
}

#[test]
fn values_are_told_apart_by_kind() {
    assert_eq!(value_kind(&Value::Null), None);
    assert_eq!(value_kind(&Value::Bool(true)), Some(ValueKind::Bool));
    assert_eq!(value_kind(&Value::Int(1)), Some(ValueKind::Number));
    assert_eq!(
        value_kind(&Value::String("1".into())),
        Some(ValueKind::Text)
    );
    assert_eq!(
        value_kind(&Value::Date(Date::parse("2026-01-01").unwrap())),
        Some(ValueKind::Date)
    );
    assert_eq!(
        value_kind(&Value::Sequence(vec![])),
        Some(ValueKind::List)
    );
    assert_eq!(
        value_kind(&Value::Mapping(SortedMap::new())),
        Some(ValueKind::Table)
    );
}
