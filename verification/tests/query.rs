use anwesen::dates::{Date, DateTime, Instant};
use anwesen::json::Json;
use anwesen::query::{
    check_value, execute, execute_merge, matches_eq, ordered_with, parse, parse_reading, path_matches,
    rfc3339_z, MergeError, Operator, ParsedQuery, QueryError, QueryResponse,
};
use anwesen::sorted::SortedMap;
use anwesen::store::NoteStore;
use anwesen::value::{Float, Frontmatter, Value};
use anwesen::vault::Note;

fn noon() -> Instant {
    let secs = chrono::DateTime::parse_from_rfc3339("2026-05-14T12:00:00Z")
        .unwrap()
        .timestamp();
    Instant::from_timestamp(secs, 0).unwrap()
}

fn note(path: &str, fm: Frontmatter) -> Note {
    note_body(path, fm, "")
}

fn note_body(path: &str, fm: Frontmatter, body: &str) -> Note {
    Note {
        path: path.into(),
        frontmatter: fm,
        body: body.into(),
        raw_bytes: Vec::new(),
        last_modified: noon(),
        etag: "\"x\"".into(),
        size: 0,
    }
}

fn fm(pairs: &[(&str, Value)]) -> Frontmatter {
    let mut m = SortedMap::new();
    for (k, v) in pairs {
        m.insert(k.to_string(), v.clone());
    }
    m
}

fn text(s: &str) -> Value {
    Value::String(s.into())
}

fn float(x: f64) -> Value {
    Value::Float(Float {
        bits: x.to_bits(),
        text: x.to_string(),
        debug: format!("{x:?}"),
    })
}

fn read_double(s: &str) -> Option<u64> {
    s.parse::<f64>().ok().map(f64::to_bits)
}

fn store_with(notes: Vec<Note>) -> NoteStore {
    let mut s = NoteStore::new();
    s.replace(notes);
    s
}

fn run(q: &ParsedQuery, s: &NoteStore) -> QueryResponse {
    execute(s, q, |_at| String::new())
}

fn paths(r: &QueryResponse) -> Vec<&str> {
    r.results.iter().map(|x| x.path.as_str()).collect()
}

#[test]
fn unknown_operator_returns_error() {
    let err = parse("title__contians=foo").unwrap_err();
    assert!(matches!(err, QueryError::UnknownOperator(_)));
    assert_eq!(err.message(), "unknown operator: contians");
}

#[test]
fn empty_query_string_returns_default_parse() {
    let q = parse("").unwrap();
    assert!(q.predicates.is_empty());
    assert!(q.recursive);
    assert!(q.path_prefix.is_none());
    assert!(q.limit.is_none());
}

#[test]
fn eq_on_scalar_and_list() {
    let q = parse("tags=python").unwrap();
    let s = store_with(vec![
        note("a.md", fm(&[("tags", text("python"))])),
        note(
            "b.md",
            fm(&[("tags", Value::Sequence(vec![text("python"), text("go")]))]),
        ),
        note("c.md", fm(&[("tags", text("go"))])),
    ]);
    let r = run(&q, &s);
    assert_eq!(r.total, 2);
    assert_eq!(paths(&r), vec!["a.md", "b.md"]);
}

#[test]
fn in_operator_matches_any() {
    let q = parse("tags__in=python,go").unwrap();
    let s = store_with(vec![
        note("a.md", fm(&[("tags", text("python"))])),
        note("b.md", fm(&[("tags", text("rust"))])),
        note("c.md", fm(&[("tags", text("go"))])),
    ]);
    let r = run(&q, &s);
    assert_eq!(r.total, 2);
}

#[test]
fn all_operator_requires_every_value() {
    let q = parse("tags__all=python,fastapi").unwrap();
    let s = store_with(vec![
        note(
            "ok.md",
            fm(&[(
                "tags",
                Value::Sequence(vec![text("python"), text("fastapi"), text("web")]),
            )]),
        ),
        note(
            "miss.md",
            fm(&[("tags", Value::Sequence(vec![text("python")]))]),
        ),
    ]);
    let r = run(&q, &s);
    assert_eq!(r.total, 1);
    assert_eq!(r.results[0].path, "ok.md");
}

#[test]
fn not_operator_excludes_match() {
    let q = parse("status__not=draft").unwrap();
    let s = store_with(vec![
        note("d.md", fm(&[("status", text("draft"))])),
        note("p.md", fm(&[("status", text("published"))])),
        note("u.md", fm(&[])),
    ]);
    let r = run(&q, &s);
    assert_eq!(paths(&r), vec!["p.md", "u.md"]);
}

#[test]
fn exists_operator_true_and_false() {
    let q_true = parse("deprecated__exists=true").unwrap();
    let q_false = parse("deprecated__exists=false").unwrap();
    let s = store_with(vec![
        note("a.md", fm(&[("deprecated", Value::Bool(true))])),
        note("b.md", fm(&[])),
    ]);
    assert_eq!(run(&q_true, &s).total, 1);
    assert_eq!(run(&q_false, &s).total, 1);
}

#[test]
fn regex_operator_on_scalar() {
    let q = parse("title__regex=%5EPDR-%5Cd%2B").unwrap();
    let s = store_with(vec![
        note("a.md", fm(&[("title", text("PDR-007"))])),
        note("b.md", fm(&[("title", text("ADR-001"))])),
    ]);
    assert_eq!(run(&q, &s).total, 1);
}

#[test]
fn prefix_operator_on_scalar() {
    let q = parse("title__prefix=PDR-").unwrap();
    let s = store_with(vec![
        note("a.md", fm(&[("title", text("PDR-007"))])),
        note("b.md", fm(&[("title", text("ADR-001"))])),
    ]);
    assert_eq!(run(&q, &s).total, 1);
}

#[test]
fn range_operators_on_dates() {
    let q = parse("date__gte=2026-05-01").unwrap();
    let s = store_with(vec![
        note(
            "old.md",
            fm(&[("date", Value::Date(Date::from_ymd_opt(2026, 4, 1).unwrap()))]),
        ),
        note(
            "new.md",
            fm(&[("date", Value::Date(Date::from_ymd_opt(2026, 6, 1).unwrap()))]),
        ),
    ]);
    let r = run(&q, &s);
    assert_eq!(r.total, 1);
    assert_eq!(r.results[0].path, "new.md");
}

#[test]
fn control_param_limit_truncates_and_sets_total() {
    let q = parse("__anw-limit=2").unwrap();
    let s = store_with(vec![
        note("a.md", fm(&[])),
        note("b.md", fm(&[])),
        note("c.md", fm(&[])),
        note("d.md", fm(&[])),
    ]);
    let r = run(&q, &s);
    assert_eq!(r.total, 4);
    assert_eq!(r.results.len(), 2);
    assert!(r.truncated);
}

#[test]
fn control_param_path_filters_prefix() {
    let q = parse("__anw-path=Projects/anwesen").unwrap();
    let s = store_with(vec![
        note("Projects/anwesen/x.md", fm(&[])),
        note("Projects/other/y.md", fm(&[])),
        note("Top.md", fm(&[])),
    ]);
    let r = run(&q, &s);
    assert_eq!(r.total, 1);
    assert_eq!(r.results[0].path, "Projects/anwesen/x.md");
}

#[test]
fn control_param_path_anchors_on_segment_boundary() {
    let q = parse("__anw-path=Projects").unwrap();
    let s = store_with(vec![
        note("Projects/y.md", fm(&[])),
        note("Projects-old/x.md", fm(&[])),
    ]);
    let r = run(&q, &s);
    assert_eq!(r.total, 1);
    assert_eq!(r.results[0].path, "Projects/y.md");
}

#[test]
fn regex_invalid_returns_bad_value() {
    let err = parse("title__regex=(unclosed").unwrap_err();
    assert!(matches!(err, QueryError::BadValue(_)));
    assert!(err
        .message()
        .starts_with("bad value: title__regex: invalid regex: "));
    assert!(err.message().contains("unclosed group"));
}

#[test]
fn exists_unparseable_bool_returns_bad_value() {
    let err = parse("deprecated__exists=maybe").unwrap_err();
    assert!(matches!(err, QueryError::BadValue(_)));
    assert_eq!(err.message(), "bad value: deprecated__exists=maybe");
}

#[test]
fn control_param_recursive_false_limits_to_direct_children() {
    let q = parse("__anw-path=Projects&__anw-recursive=false").unwrap();
    let s = store_with(vec![
        note("Projects/a.md", fm(&[])),
        note("Projects/sub/b.md", fm(&[])),
    ]);
    let r = run(&q, &s);
    assert_eq!(r.total, 1);
    assert_eq!(r.results[0].path, "Projects/a.md");
}

#[test]
fn nested_dotted_keys() {
    let mut author = SortedMap::new();
    author.insert("name".into(), text("brn"));
    let q = parse("author.name=brn").unwrap();
    let s = store_with(vec![
        note("a.md", fm(&[("author", Value::Mapping(author))])),
        note("b.md", fm(&[("author", text("someone"))])),
    ]);
    assert_eq!(run(&q, &s).total, 1);
}

#[test]
fn comma_escape_via_percent_encoding() {
    let q = parse("kind__in=a%2Cb,c").unwrap();
    assert_eq!(q.predicates[0].value, "a,b,c");
}

#[test]
fn unknown_control_param_returns_error() {
    let err = parse("__anw-flarble=1").unwrap_err();
    assert!(matches!(err, QueryError::BadControl(_)));
    assert_eq!(err.message(), "bad control parameter: flarble");
}

#[test]
fn order_parses_direction_suffix() {
    assert!(!parse("__anw-order=num").unwrap().order.unwrap().desc);
    let asc = parse("__anw-order=num:asc").unwrap().order.unwrap();
    assert_eq!(asc.key, "num");
    assert!(!asc.desc);
    let desc = parse("__anw-order=num:desc").unwrap().order.unwrap();
    assert_eq!(desc.key, "num");
    assert!(desc.desc);
}

#[test]
fn order_empty_key_is_bad_control() {
    assert!(matches!(
        parse("__anw-order=:desc").unwrap_err(),
        QueryError::BadControl(_)
    ));
    assert!(matches!(
        parse("__anw-kind=").unwrap_err(),
        QueryError::BadControl(_)
    ));
}

#[test]
fn merge_concatenates_bodies_with_source_markers() {
    let q = parse("").unwrap();
    let s = store_with(vec![
        note_body("a.md", fm(&[]), "Body A."),
        note_body("b.md", fm(&[]), "Body B."),
    ]);
    let out = execute_merge(&s, &q).unwrap();
    assert_eq!(
        out,
        "<!-- source: a.md -->\nBody A.\n\n<!-- source: b.md -->\nBody B."
    );
}

#[test]
fn merge_empty_match_set_is_empty_document() {
    let q = parse("status=nope").unwrap();
    let s = store_with(vec![note_body("a.md", fm(&[]), "Body A.")]);
    assert_eq!(execute_merge(&s, &q).unwrap(), "");
}

#[test]
fn merge_order_applies_before_limit() {
    let q = parse("__anw-order=num:desc&__anw-limit=2").unwrap();
    let s = store_with(vec![
        note_body("a.md", fm(&[("num", Value::Int(1))]), "one"),
        note_body("b.md", fm(&[("num", Value::Int(3))]), "three"),
        note_body("c.md", fm(&[("num", Value::Int(2))]), "two"),
    ]);
    let out = execute_merge(&s, &q).unwrap();
    assert_eq!(
        out,
        "<!-- source: b.md -->\nthree\n\n<!-- source: c.md -->\ntwo"
    );
}

#[test]
fn merge_order_missing_key_sorts_last_then_by_path() {
    let q = parse("__anw-order=num").unwrap();
    let s = store_with(vec![
        note_body("z.md", fm(&[("num", Value::Int(5))]), "five"),
        note_body("m.md", fm(&[]), "no-num-m"),
        note_body("a.md", fm(&[]), "no-num-a"),
    ]);
    let out = execute_merge(&s, &q).unwrap();
    assert_eq!(
        out,
        "<!-- source: z.md -->\nfive\n\n<!-- source: a.md -->\nno-num-a\n\n<!-- source: m.md -->\nno-num-m"
    );
}

#[test]
fn merge_kind_guard_passes_when_uniform() {
    let q = parse("__anw-kind=kind").unwrap();
    let s = store_with(vec![
        note_body("a.md", fm(&[("kind", text("PDR"))]), "a"),
        note_body("b.md", fm(&[("kind", text("PDR"))]), "b"),
    ]);
    assert!(execute_merge(&s, &q).is_ok());
}

#[test]
fn merge_kind_guard_rejects_distinct_values() {
    let q = parse("__anw-kind=kind").unwrap();
    let s = store_with(vec![
        note_body("a.md", fm(&[("kind", text("PDR"))]), "a"),
        note_body("b.md", fm(&[("kind", text("ADR"))]), "b"),
    ]);
    let err = execute_merge(&s, &q).unwrap_err();
    let MergeError::KindGuard(msg) = err;
    assert!(msg.contains("ADR"));
    assert!(msg.contains("PDR"));
    assert!(msg.contains("a.md"));
    assert!(msg.contains("b.md"));
}

#[test]
fn merge_kind_guard_rejects_missing_key() {
    let q = parse("__anw-kind=kind").unwrap();
    let s = store_with(vec![
        note_body("a.md", fm(&[("kind", text("PDR"))]), "a"),
        note_body("b.md", fm(&[]), "b"),
    ]);
    let err = execute_merge(&s, &q).unwrap_err();
    let MergeError::KindGuard(msg) = err;
    assert!(msg.contains("missing the key"));
    assert!(msg.contains("b.md"));
}

#[test]
fn merge_kind_guard_evaluated_over_full_set_before_limit() {
    let q = parse("__anw-kind=kind&__anw-limit=1&__anw-order=num").unwrap();
    let s = store_with(vec![
        note_body(
            "a.md",
            fm(&[("kind", text("PDR")), ("num", Value::Int(1))]),
            "a",
        ),
        note_body(
            "b.md",
            fm(&[("kind", text("ADR")), ("num", Value::Int(2))]),
            "b",
        ),
    ]);
    assert!(execute_merge(&s, &q).is_err());
}

#[test]
fn kind_guard_message_lists_values_in_order_and_the_notes_without() {
    let q = parse("__anw-kind=kind").unwrap();
    let s = store_with(vec![
        note("a.md", fm(&[("kind", text("PDR"))])),
        note("b.md", fm(&[("kind", text("ADR"))])),
        note("c.md", fm(&[("kind", text("PDR"))])),
        note("d.md", fm(&[])),
        note("e.md", fm(&[])),
    ]);
    let MergeError::KindGuard(msg) = execute_merge(&s, &q).unwrap_err();
    assert_eq!(
        msg,
        "__anw-kind=kind: merge requires every matched note to share one value for `kind`\ndistinct values found:\n  ADR: b.md\n  PDR: a.md, c.md\nnotes missing the key: d.md, e.md\n"
    );
}

#[test]
fn kind_guard_groups_lists_and_tables_by_their_text() {
    let q = parse("__anw-kind=k").unwrap();
    let list = Value::Sequence(vec![
        text("a\"b"),
        Value::Int(1),
        float(1.0),
        Value::Null,
        Value::Bool(true),
        Value::Date(Date::from_ymd_opt(2026, 5, 14).unwrap()),
        Value::DateTime(DateTime::parse_from_rfc3339("2026-05-14T12:14:22+02:00").unwrap()),
    ]);
    let table = Value::Mapping(fm(&[("z", text("y")), ("a", Value::Sequence(vec![]))]));
    let s = store_with(vec![
        note("a.md", fm(&[("k", list)])),
        note("b.md", fm(&[("k", table)])),
    ]);
    let MergeError::KindGuard(msg) = execute_merge(&s, &q).unwrap_err();
    assert!(msg.contains(
        "  Sequence([String(\"a\\\"b\"), Int(1), Float(1.0), Null, Bool(true), Date(2026-05-14), DateTime(2026-05-14T12:14:22+02:00)]): a.md\n"
    ), "{msg}");
    assert!(
        msg.contains("  Mapping({\"a\": Sequence([]), \"z\": String(\"y\")}): b.md\n"),
        "{msg}"
    );
}

#[test]
fn scalars_match_by_their_text() {
    assert!(matches_eq(&Value::Null, "null"));
    assert!(matches_eq(&Value::Bool(false), "false"));
    assert!(matches_eq(&Value::Int(-7), "-7"));
    assert!(matches_eq(&float(1.5), "1.5"));
    assert!(matches_eq(&float(2.0), "2"));
    assert!(!matches_eq(&float(2.0), "2.0"));
    let d = Date::from_ymd_opt(2026, 5, 14).unwrap();
    assert!(matches_eq(&Value::Date(d), "2026-05-14"));
    let t = DateTime::parse_from_rfc3339("2026-05-14T12:14:22+02:00").unwrap();
    assert!(matches_eq(&Value::DateTime(t), "2026-05-14T10:14:22Z"));
    let nested = Value::Sequence(vec![Value::Sequence(vec![text("a")])]);
    assert!(!matches_eq(&nested, "a"));
    assert!(!matches_eq(&Value::Mapping(SortedMap::new()), "Mapping({})"));
}

#[test]
fn range_operators_go_by_kind() {
    let s = store_with(vec![
        note("int.md", fm(&[("n", Value::Int(10))])),
        note("float.md", fm(&[("n", float(2.5))])),
        note("text.md", fm(&[("n", text("9"))])),
    ]);
    let at = |raw: &str| -> Vec<String> {
        let q = parse(raw).unwrap().read_numbers(read_double);
        paths(&run(&q, &s)).iter().map(|p| p.to_string()).collect()
    };
    assert_eq!(at("n__gt=9"), vec!["int.md"]);
    assert_eq!(at("n__gte=9"), vec!["int.md", "text.md"]);
    assert_eq!(at("n__lt=9.5"), vec!["float.md", "text.md"]);
    assert_eq!(at("n__lte=2.5"), vec!["float.md"]);
    assert_eq!(at("n__gt=2.4"), vec!["float.md", "int.md", "text.md"]);
}

#[test]
fn doubles_compare_where_values_are_read_as_doubles() {
    let s = store_with(vec![
        note("double.md", fm(&[("n", float(2.0))])),
        note("int.md", fm(&[("n", Value::Int(10))])),
    ]);
    let total = |raw: &str| run(&parse_reading(raw, read_double).unwrap(), &s).total;
    assert_eq!(total("n__gt=1.5"), 2);
    assert_eq!(total("n__gt=9.5"), 1);
    assert_eq!(total("n__gt=1"), 2);
    assert_eq!(total("n__lt=2.5"), 1);
    let err = parse_reading("n__bogus=1", read_double).unwrap_err();
    assert!(matches!(err, QueryError::UnknownOperator(_)));
    let q = parse("n__gt=9.5").unwrap().read_numbers(read_double);
    assert_eq!(run(&q, &s).total, 1);
}

#[test]
fn without_doubles_only_integers_compare() {
    let s = store_with(vec![
        note("double.md", fm(&[("n", float(20.0))])),
        note("int.md", fm(&[("n", Value::Int(10))])),
    ]);
    let found = run(&parse("n__gt=9").unwrap(), &s);
    assert_eq!(paths(&found), vec!["int.md"]);
}

#[test]
fn integers_beyond_2_to_the_53_compare_as_doubles() {
    let big = (1i64 << 53) + 1;
    let v = Value::Int(big);
    let gt = |needle: &str| ordered_with(&v, needle, None, None, read_double(needle), Operator::Gt);
    assert!(!gt("9007199254740992.0"));
    assert!(gt("9007199254740991.0"));
    assert!(gt("9007199254740992"));
}

#[test]
fn not_a_number_compares_as_equal() {
    let v = float(f64::NAN);
    let op = |op| ordered_with(&v, "1.0", None, None, read_double("1.0"), op);
    assert!(op(Operator::Gte) && op(Operator::Lte));
    assert!(!op(Operator::Gt) && !op(Operator::Lt));
}

#[test]
fn datetimes_compare_as_instants() {
    let v = Value::DateTime(DateTime::parse_from_rfc3339("2026-05-14T12:00:00+02:00").unwrap());
    let s = store_with(vec![note("a.md", fm(&[("at", v)]))]);
    assert_eq!(run(&parse("at__gt=2026-05-14T09:59:59Z").unwrap(), &s).total, 1);
    assert_eq!(run(&parse("at__gt=2026-05-14T10:00:00Z").unwrap(), &s).total, 0);
    assert_eq!(run(&parse("at__gte=2026-05-14T10:00:00Z").unwrap(), &s).total, 1);
    assert_eq!(run(&parse("at__gte=2026-05-14").unwrap(), &s).total, 0);
}

#[test]
fn predicates_narrow_each_other() {
    let s = store_with(vec![
        note("a.md", fm(&[("x", Value::Int(1)), ("y", Value::Int(1))])),
        note("b.md", fm(&[("x", Value::Int(1)), ("y", Value::Int(2))])),
    ]);
    assert_eq!(paths(&run(&parse("x=1").unwrap(), &s)), vec!["a.md", "b.md"]);
    assert_eq!(paths(&run(&parse("x=1&y=2").unwrap(), &s)), vec!["b.md"]);
    assert_eq!(paths(&run(&parse("x=1&y__not=2").unwrap(), &s)), vec!["a.md"]);
}

#[test]
fn a_note_that_is_the_path_itself_is_in_scope() {
    assert!(path_matches("a/b.md", "a/b.md", false));
    assert!(path_matches("b.md", "", false));
    assert!(!path_matches("a/b.md", "", false));
    assert!(path_matches("a/b.md", "", true));
    assert!(!path_matches("ab/c.md", "a", true));
}

#[test]
fn controls_are_read_and_refused() {
    let q = parse("__anw-path=//a/b&__anw-limit=%2B7&&").unwrap();
    assert_eq!(q.path_prefix.as_deref(), Some("a/b"));
    assert_eq!(q.limit, Some(7));
    for (raw, message) in [
        ("__anw-limit=-1", "bad control parameter: limit=-1"),
        ("__anw-limit=", "bad control parameter: limit="),
        (
            "__anw-limit=99999999999999999999",
            "bad control parameter: limit=99999999999999999999",
        ),
        ("__anw-recursive=yes", "bad control parameter: recursive=yes"),
        ("__anw-order=:desc", "bad control parameter: order=:desc"),
        ("__anw-kind", "bad control parameter: kind: empty key"),
        ("a=%G1", "bad value: %G1"),
        ("%FF=1", "bad value: %FF"),
        ("a=%4", "bad value: %4"),
    ] {
        assert_eq!(parse(raw).unwrap_err().message(), message, "{raw}");
    }
}

#[test]
fn the_first_refused_pair_counts() {
    assert_eq!(
        parse("a=1&b__x=2&c__y=3").unwrap_err(),
        QueryError::UnknownOperator("x".into())
    );
    assert_eq!(
        parse("__in=1").unwrap().predicates[0].field,
        ""
    );
    let q = parse("a___in=1").unwrap();
    assert_eq!(q.predicates[0].field, "a_");
    assert_eq!(q.predicates[0].op, Operator::In);
}

#[test]
fn pluses_stand_for_spaces_in_queries() {
    let q = parse("ti%2Btle=a+b%20c").unwrap();
    assert_eq!(q.predicates[0].field, "ti+tle");
    assert_eq!(q.predicates[0].value, "a b c");
}

#[test]
fn checking_a_value_goes_by_the_operator() {
    let e = check_value("t__regex", Operator::Regex, "(", Some("boom".into())).unwrap();
    assert_eq!(e, QueryError::BadValue("t__regex: invalid regex: boom".into()));
    assert!(check_value("t__regex", Operator::Regex, "a", None).is_none());
    assert!(check_value("t", Operator::Eq, "(", Some("boom".into())).is_none());
}

#[test]
fn rows_project_the_note() {
    let s = store_with(vec![note("a.md", fm(&[("n", Value::Int(3))]))]);
    let r = execute(&s, &parse("").unwrap(), rfc3339_z);
    assert_eq!(r.results[0].last_modified, "2026-05-14T12:00:00Z");
    assert_eq!(r.results[0].etag, "\"x\"");
    let Json::Object(members) = &r.results[0].frontmatter else {
        panic!("expected object");
    };
    assert_eq!(members.get("n"), Some(&Json::Int(3)));
    assert!(!r.truncated);
}

#[test]
fn merge_orders_each_kind_by_its_own_order() {
    let day = |d| Value::Date(Date::from_ymd_opt(2026, 5, d).unwrap());
    let s = store_with(vec![
        note_body("a.md", fm(&[("k", day(9))]), "9"),
        note_body("b.md", fm(&[("k", day(10))]), "10"),
        note_body("c.md", fm(&[("k", day(10))]), "10"),
    ]);
    let out = execute_merge(&s, &parse("__anw-order=k:desc").unwrap()).unwrap();
    let bodies: Vec<&str> = out.lines().filter(|l| l.starts_with("<!--")).collect();
    assert_eq!(
        bodies,
        vec![
            "<!-- source: b.md -->",
            "<!-- source: c.md -->",
            "<!-- source: a.md -->"
        ]
    );
    let s = store_with(vec![
        note_body("a.md", fm(&[("k", text("b"))]), ""),
        note_body("b.md", fm(&[("k", text("B"))]), ""),
        note_body("c.md", fm(&[("k", text("a"))]), ""),
    ]);
    let out = execute_merge(&s, &parse("__anw-order=k").unwrap()).unwrap();
    assert_eq!(
        out,
        "<!-- source: b.md -->\n\n\n<!-- source: c.md -->\n\n\n<!-- source: a.md -->\n"
    );
}

#[test]
fn merge_orders_integers_and_doubles_together() {
    let s = store_with(vec![
        note_body("a.md", fm(&[("k", Value::Int(2))]), ""),
        note_body("b.md", fm(&[("k", float(1.5))]), ""),
        note_body("c.md", fm(&[("k", float(-0.5))]), ""),
    ]);
    let out = execute_merge(&s, &parse("__anw-order=k").unwrap()).unwrap();
    let order: Vec<&str> = out.lines().filter(|l| l.starts_with("<!--")).collect();
    assert_eq!(
        order,
        vec![
            "<!-- source: c.md -->",
            "<!-- source: b.md -->",
            "<!-- source: a.md -->"
        ]
    );
}

#[test]
fn regex_is_found_in_every_scalar_and_in_nothing_else() {
    let s = store_with(vec![
        note("bool.md", fm(&[("v", Value::Bool(true))])),
        note(
            "date.md",
            fm(&[("v", Value::Date(Date::parse("2026-05-14").unwrap()))]),
        ),
        note(
            "datetime.md",
            fm(&[(
                "v",
                Value::DateTime(DateTime::parse_from_rfc3339("2026-05-14T12:00:00+02:00").unwrap()),
            )]),
        ),
        note("float.md", fm(&[("v", float(2.5))])),
        note("int.md", fm(&[("v", Value::Int(2026))])),
        note("list.md", fm(&[("v", Value::Sequence(vec![text("2026")]))])),
        note("null.md", fm(&[("v", Value::Null)])),
        note(
            "table.md",
            fm(&[("v", Value::Mapping(fm(&[("2026", text("2026"))])))]),
        ),
        note("text.md", fm(&[("v", text("2026"))])),
        note("without.md", fm(&[])),
    ]);
    let found = |raw: &str| {
        let r = run(&parse(raw).unwrap(), &s);
        paths(&r).iter().map(|p| p.to_string()).collect::<Vec<_>>()
    };
    assert_eq!(
        found("v__regex=%5E2026"),
        vec!["date.md", "datetime.md", "int.md", "text.md"]
    );
    assert_eq!(found("v__regex=T10:00:00Z%24"), vec!["datetime.md"]);
    assert_eq!(found("v__regex=%5E2%5C.5%24"), vec!["float.md"]);
    assert_eq!(found("v__regex=%5Etrue%24"), vec!["bool.md"]);
    assert_eq!(found("v__regex=%5Enull%24"), vec!["null.md"]);
    assert_eq!(found("v__regex=.").len(), 7);
}

#[test]
fn values_in_a_circle_are_merged_in_one_fixed_order() {
    let s = store_with(vec![
        note_body("a.md", fm(&[("n", Value::Int(9))]), "A"),
        note_body("b.md", fm(&[("n", Value::Int(10))]), "B"),
        note_body("c.md", fm(&[("n", text("5"))]), "C"),
    ]);
    let merged = |raw: &str| execute_merge(&s, &parse(raw).unwrap()).unwrap();
    assert_eq!(
        merged("__anw-order=n"),
        "<!-- source: a.md -->\nA\n\n<!-- source: b.md -->\nB\n\n<!-- source: c.md -->\nC"
    );
    assert_eq!(merged("__anw-order=n"), merged("__anw-order=n:asc"));
}

#[test]
fn doubles_are_equal_as_numbers() {
    assert_eq!(float(0.0), float(-0.0));
    assert_eq!(float(1.5), float(1.5));
    assert_ne!(float(1.5), float(-1.5));
    assert_ne!(float(f64::NAN), float(f64::NAN));
    assert_eq!(float(f64::INFINITY), float(f64::INFINITY));
    assert_ne!(float(f64::INFINITY), float(f64::NEG_INFINITY));
    assert_ne!(float(1.0), Value::Int(1));
    assert_eq!(float(0.0).to_json(), float(-0.0).to_json());
    assert_eq!(
        Value::Sequence(vec![float(-0.0)]),
        Value::Sequence(vec![float(0.0)])
    );
}
