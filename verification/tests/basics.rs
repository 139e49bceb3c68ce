use anwesen::dates::{Date, DateTime, Instant};
use anwesen::headers::read_header;
use anwesen::numbers::{i64_text, parse_bool, parse_i64, parse_usize, u64_text};
use anwesen::paths::{is_dot_prefixed, is_markdown, join, relative, strip_prefix};
use anwesen::percent::percent_decode;
use anwesen::sorted::SortedMap;
use anwesen::text::{compare, join as join_text, split_at_each, split_once, trim, Order};
use anwesen::value::{compare_floats, float_of_int, Float, Value};

#[test]
fn dates_are_read_and_written() {
    let d = Date::from_ymd_opt(2024, 2, 29).unwrap();
    assert_eq!(d.format(), "2024-02-29");
    assert_eq!(Date::parse("2024-02-29"), Some(d));
    assert!(Date::from_ymd_opt(2023, 2, 29).is_none());
    assert!(Date::from_ymd_opt(2023, 13, 1).is_none());
    assert!(Date::from_ymd_opt(2023, 4, 31).is_none());
    assert!(Date::from_ymd_opt(1900, 2, 29).is_none());
    assert!(Date::from_ymd_opt(2000, 2, 29).is_some());
    assert_eq!(Date::from_ymd_opt(7, 1, 2).unwrap().format(), "0007-01-02");
    assert_eq!(
        Date::from_ymd_opt(-7, 1, 2).unwrap().format(),
        "-0007-01-02"
    );
    assert_eq!(
        Date::from_ymd_opt(12345, 1, 2).unwrap().format(),
        "+12345-01-02"
    );
    assert!(Date::parse("2024-2-30").is_none());
    assert_eq!(
        d.compare(&Date::from_ymd_opt(2024, 3, 1).unwrap()),
        Order::Less
    );
}

#[test]
fn instants_are_written_to_the_second() {
    let at = Instant::from_timestamp(86_400, 999_999_999).unwrap();
    assert_eq!(at.to_rfc3339(), "1970-01-02T00:00:00Z");
    assert_eq!(at.timestamp_millis(), 86_400_999);
    assert_eq!(
        Instant::from_timestamp_millis(-1).unwrap(),
        Instant::from_timestamp(-1, 999_000_000).unwrap()
    );
    assert!(Instant::from_timestamp(i64::MAX, 0).is_none());
}

#[test]
fn datetimes_keep_their_offset() {
    let t = DateTime::parse_from_rfc3339("2026-05-14T12:14:22.5+02:00").unwrap();
    assert_eq!(t.instant().to_rfc3339(), "2026-05-14T10:14:22Z");
    assert_eq!(t.instant().timestamp_subsec_nanos(), 500_000_000);
    assert_eq!(t.debug_text(), "2026-05-14T12:14:22.500+02:00");
    assert!(DateTime::parse_from_rfc3339("2026-05-14").is_none());
}

#[test]
fn doubles_are_compared_by_their_bits() {
    let all = [
        f64::NEG_INFINITY,
        -2.5,
        -0.0,
        0.0,
        5e-324,
        1.0,
        1.5,
        f64::MAX,
        f64::INFINITY,
        f64::NAN,
    ];
    for a in all {
        for b in all {
            let want = match a.partial_cmp(&b) {
                Some(std::cmp::Ordering::Less) => Order::Less,
                Some(std::cmp::Ordering::Greater) => Order::Greater,
                _ => Order::Equal,
            };
            assert_eq!(compare_floats(a.to_bits(), b.to_bits()), want, "{a} {b}");
        }
    }
}

#[test]
fn integers_become_the_nearest_double() {
    let edge = 1i64 << 53;
    for i in [
        0,
        1,
        -1,
        7,
        edge - 1,
        edge,
        edge + 1,
        edge + 2,
        edge + 3,
        -(edge + 3),
        (1 << 54) + 2,
        (1 << 54) + 6,
        i64::MAX,
        i64::MIN,
        i64::MIN + 1,
        1234567890123456789,
    ] {
        assert_eq!(float_of_int(i), (i as f64).to_bits(), "{i}");
    }
}

#[test]
fn equal_instants_have_equal_texts() {
    let a = Value::DateTime(DateTime::parse_from_rfc3339("2026-05-14T10:14:22Z").unwrap());
    let b = Value::DateTime(DateTime::parse_from_rfc3339("2026-05-14T12:14:22+02:00").unwrap());
    assert_eq!(a.canonical_string(), "2026-05-14T10:14:22Z");
    assert_eq!(a.canonical_string(), b.canonical_string());
    assert_eq!(a.to_json(), b.to_json());
    assert_eq!(a, b);
}

#[test]
fn canonical_texts_of_each_kind() {
    assert_eq!(Value::Null.canonical_string(), "null");
    assert_eq!(Value::Bool(true).canonical_string(), "true");
    assert_eq!(Value::Int(i64::MIN).canonical_string(), "-9223372036854775808");
    let f = Value::Float(Float {
        bits: 1.0f64.to_bits(),
        text: "1".into(),
        debug: "1.0".into(),
    });
    assert_eq!(f.canonical_string(), "1");
    assert_eq!(Value::Sequence(vec![f]).canonical_string(), "Sequence([Float(1.0)])");
    assert_eq!(
        Value::Sequence(vec![Value::String("a\n\"\u{7f}é".into())]).canonical_string(),
        "Sequence([String(\"a\\n\\\"\\u{7f}é\")])"
    );
}

#[test]
fn numbers_are_read_as_rust_reads_them() {
    for s in [
        "0", "+7", "-7", "-0", "", "+", "-", "--1", "1 ", " 1", "00012", "1_0", "9223372036854775807",
        "9223372036854775808", "-9223372036854775808", "-9223372036854775809",
        "18446744073709551615", "18446744073709551616", "\u{0661}",
    ] {
        assert_eq!(parse_i64(s), s.parse::<i64>().ok(), "{s}");
        assert_eq!(parse_usize(s), s.parse::<usize>().ok(), "{s}");
    }
    assert_eq!(parse_bool("true"), Some(true));
    assert_eq!(parse_bool("false"), Some(false));
    assert_eq!(parse_bool("True"), None);
    assert_eq!(u64_text(u64::MAX), "18446744073709551615");
    assert_eq!(i64_text(-10), "-10");
}

#[test]
fn texts_are_ordered_and_taken_apart() {
    for (a, b) in [("a", "b"), ("a", "a"), ("ab", "a"), ("z", "é"), ("\u{ffff}", "\u{10000}")] {
        let want = match a.cmp(b) {
            std::cmp::Ordering::Less => Order::Less,
            std::cmp::Ordering::Equal => Order::Equal,
            std::cmp::Ordering::Greater => Order::Greater,
        };
        assert_eq!(compare(a, b), want, "{a} {b}");
    }
    assert_eq!(split_at_each("a,,b,", ','), vec!["a", "", "b", ""]);
    assert_eq!(split_at_each("", ','), vec![""]);
    assert_eq!(split_once("k=v=w", '='), Some(("k".into(), "v=w".into())));
    assert_eq!(split_once("k", '='), None);
    assert_eq!(trim(" \t\u{a0}\u{2003}a b\u{3000}\n"), "a b");
    assert_eq!(trim("\u{200b}a"), "\u{200b}a".trim());
    assert_eq!(join_text(&vec!["a".into(), "b".into()], ", "), "a, b");
}

#[test]
fn white_space_is_what_unicode_says() {
    for c in (0u32..=0x3100).filter_map(char::from_u32) {
        let s = format!("{c}x{c}");
        assert_eq!(trim(&s), s.trim(), "{:x}", c as u32);
    }
}

#[test]
fn paths_are_taken_apart_as_the_system_does() {
    assert_eq!(strip_prefix(b"/v/a//./b.md", b"/v/"), Some(b"a//./b.md".to_vec()));
    assert_eq!(strip_prefix(b"/vault/a.md", b"/v"), None);
    assert_eq!(strip_prefix(b"/v", b"/v"), Some(vec![]));
    assert!(is_markdown(b"/v/a.md"));
    assert!(is_markdown(b"/v/a.b.md"));
    assert!(!is_markdown(b"/v/.md"));
    assert!(!is_markdown(b"/v/a.MD"));
    assert!(!is_markdown(b"/v/md"));
    assert!(is_dot_prefixed(b".git"));
    assert!(!is_dot_prefixed(&[b'.', 0xff]));
    assert_eq!(relative(b"/v", b"/v/a/b.md"), Some("a/b.md".to_string()));
    assert_eq!(relative(b"/v", b"/v/a/../b.md"), None);
    assert_eq!(join(b"/v", b"/abs"), b"/abs".to_vec());
    assert_eq!(join(b"", b"a"), b"a".to_vec());
}

#[test]
fn percent_escapes_are_decoded_once() {
    assert_eq!(percent_decode("a%41%c3%a9%2525", false), Some("aAé%25".into()));
    assert_eq!(percent_decode("a+b", false), Some("a+b".into()));
    assert_eq!(percent_decode("a+b%2B", true), Some("a b+".into()));
    assert_eq!(percent_decode("%4", false), None);
    assert_eq!(percent_decode("%", false), None);
    assert_eq!(percent_decode("%g0", false), None);
    assert_eq!(percent_decode("%c3", false), None);
    assert_eq!(percent_decode("plain é", false), Some("plain é".into()));
}

#[test]
fn headers_hold_visible_ascii_only() {
    assert_eq!(read_header(b"a\tb ~"), Some("a\tb ~".to_string()));
    assert_eq!(read_header(b""), Some(String::new()));
    for b in 0u8..=255 {
        let ours = read_header(&[b]).is_some();
        let theirs = axum::http::HeaderValue::from_bytes(&[b])
            .ok()
            .is_some_and(|v| v.to_str().is_ok());
        assert_eq!(ours, theirs, "{b}");
    }
}

#[test]
fn sorted_maps_hold_each_key_once() {
    let mut m: SortedMap<u32> = SortedMap::new();
    assert!(m.is_empty());
    m.insert("b".into(), 1);
    m.insert("a".into(), 2);
    m.insert("b".into(), 3);
    assert_eq!(m.len(), 2);
    assert_eq!((m.key_at(0).as_str(), *m.value_at(0)), ("a", 2));
    assert_eq!((m.key_at(1).as_str(), *m.value_at(1)), ("b", 3));
    m.remove("a");
    m.remove("zz");
    assert_eq!(m.get("a"), None);
    assert_eq!(m.get("b"), Some(&3));
}
