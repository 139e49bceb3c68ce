use anwesen::telemetry::{
    classify_route, conditional_get, default_resource_attrs, should_span, span_name, Attribute,
    Duration, OtelEnv, RawTelemetryArgs, TelemetryConfig, TelemetryError, TraceHeaders,
};

fn raw() -> RawTelemetryArgs {
    RawTelemetryArgs::default()
}

fn generic(endpoint: &str) -> OtelEnv {
    OtelEnv {
        endpoint: Some(endpoint.into()),
        ..OtelEnv::default()
    }
}

#[test]
fn resolve_off_when_no_endpoint_variable_is_set() {
    let cfg = TelemetryConfig::resolve(&raw(), OtelEnv::default()).unwrap();
    assert!(cfg.is_none(), "no OTEL_ endpoint means telemetry off");
}

#[test]
fn resolve_on_for_each_endpoint_variable() {
    let per_signal = |field: fn(&mut OtelEnv)| {
        let mut env = OtelEnv::default();
        field(&mut env);
        env
    };
    for env in [
        generic("https://collector.example.com"),
        per_signal(|e| {
            e.metrics_endpoint = Some("https://collector.example.com/v1/metrics".into());
        }),
        per_signal(|e| {
            e.traces_endpoint = Some("https://collector.example.com/v1/traces".into());
        }),
    ] {
        let cfg = TelemetryConfig::resolve(
            &RawTelemetryArgs {
                slow_request_ms: 250,
                ..raw()
            },
            env.clone(),
        )
        .unwrap_or_else(|e| panic!("{env:?}: {}", e.message()))
        .expect("telemetry on");
        assert_eq!(cfg.slow_request, Duration::from_millis(250));
    }
}

#[test]
fn resolve_rejects_a_query_or_fragment_on_the_generic_endpoint() {
    for endpoint in [
        "https://api.uptrace.dev?grpc=4317",
        "https://api.uptrace.dev/?grpc=4317",
        "https://api.uptrace.dev:4318?grpc=4317",
        "https://api.uptrace.dev#frag",
    ] {
        let err = TelemetryConfig::resolve(&raw(), generic(endpoint))
            .unwrap_err()
            .message();
        assert!(err.contains("trailing"), "{endpoint}: {err}");
    }
}

#[test]
fn endpoint_error_quotes_address_and_tail() {
    let err = TelemetryConfig::resolve(&raw(), generic("https://h#a?b")).unwrap_err();
    assert_eq!(
        err,
        TelemetryError::Endpoint {
            endpoint: "https://h#a?b".into(),
            tail: "#a?b".into()
        }
    );
    assert_eq!(
        err.message(),
        "OTEL_EXPORTER_OTLP_ENDPOINT \"https://h#a?b\" has a trailing \"#a?b\"; the exporter would append the signal path after it and export nowhere. Pass the base URL alone, and put an uptrace DSN in OTEL_EXPORTER_OTLP_HEADERS=uptrace-dsn=<the DSN, verbatim>"
    );
}

#[test]
fn resolve_accepts_a_path_prefix_and_per_signal_tails() {
    for env in [
        generic("https://collector.example.com/otlp"),
        generic("https://collector.example.com/"),
        OtelEnv {
            metrics_endpoint: Some("https://api.uptrace.dev/v1/metrics?grpc=4317".into()),
            ..OtelEnv::default()
        },
    ] {
        TelemetryConfig::resolve(&raw(), env.clone())
            .unwrap_or_else(|e| panic!("{env:?}: {}", e.message()))
            .expect("telemetry on");
    }
}

#[test]
fn resolve_rejects_a_protocol_this_build_cannot_speak() {
    let with_protocol = |field: fn(&mut OtelEnv)| {
        let mut env = generic("https://collector.example.com");
        field(&mut env);
        env
    };
    for env in [
        with_protocol(|e| e.protocol = Some("grpc".into())),
        with_protocol(|e| e.protocol = Some("http/json".into())),
        with_protocol(|e| e.metrics_protocol = Some("grpc".into())),
        with_protocol(|e| e.traces_protocol = Some("grpc".into())),
    ] {
        let err = TelemetryConfig::resolve(&raw(), env.clone())
            .unwrap_err()
            .message();
        assert!(err.contains("http/protobuf"), "{env:?}: {err}");
    }
}

#[test]
fn protocol_error_names_the_variable() {
    let mut env = generic("https://collector.example.com");
    env.traces_protocol = Some("grpc".into());
    let err = TelemetryConfig::resolve(&raw(), env).unwrap_err();
    assert_eq!(
        err.message(),
        "OTEL_EXPORTER_OTLP_TRACES_PROTOCOL=\"grpc\" is not supported; this build speaks http/protobuf only. Unset the variable, and point the endpoint at the collector's HTTP port rather than its gRPC one"
    );
}

#[test]
fn protocols_do_not_matter_while_telemetry_is_off() {
    let env = OtelEnv {
        protocol: Some("grpc".into()),
        ..OtelEnv::default()
    };
    assert!(TelemetryConfig::resolve(&raw(), env).unwrap().is_none());
}

#[test]
fn resolve_accepts_the_supported_protocol_spelled_out() {
    let env = OtelEnv {
        protocol: Some("http/protobuf".into()),
        metrics_protocol: Some("http/protobuf".into()),
        ..generic("https://collector.example.com")
    };
    TelemetryConfig::resolve(&raw(), env)
        .unwrap()
        .expect("telemetry on");
}

#[test]
fn service_identity_defaults_step_aside_for_the_environment() {
    let keys = |attrs: &[Attribute]| attrs.iter().map(|a| a.key.clone()).collect::<Vec<_>>();

    let plain = default_resource_attrs(None, None, "0.3.0");
    assert_eq!(keys(&plain), ["service.name", "service.version"]);
    assert_eq!(plain[0].value, "anwesen");
    assert_eq!(plain[1].value, "0.3.0");

    let named = default_resource_attrs(Some("svcname-override"), None, "0.3.0");
    assert_eq!(keys(&named), ["service.version"]);

    let attrs = default_resource_attrs(
        None,
        Some("deployment.environment=prod,service.name=attrs-override"),
        "0.3.0",
    );
    assert_eq!(keys(&attrs), ["service.version"]);

    let versioned = default_resource_attrs(None, Some("service.version=9.9.9"), "0.3.0");
    assert_eq!(keys(&versioned), ["service.name"]);

    let empty = default_resource_attrs(Some("  "), None, "0.3.0");
    assert_eq!(keys(&empty), ["service.name", "service.version"]);
}

#[test]
fn resource_attribute_keys_are_trimmed() {
    let r = default_resource_attrs(None, Some(" service.name =x"), "1");
    assert_eq!(r.len(), 1);
    assert_eq!(r[0].key, "service.version");
    let r = default_resource_attrs(None, Some("service.name"), "1");
    assert_eq!(r.len(), 2);
}

#[test]
fn resolve_rejects_the_removed_uptrace_dsn() {
    let err = TelemetryConfig::resolve(
        &RawTelemetryArgs {
            uptrace_dsn: Some("https://tok@api.uptrace.dev".into()),
            ..raw()
        },
        OtelEnv::default(),
    )
    .unwrap_err()
    .message();
    assert!(err.contains("--uptrace-dsn"), "{err}");
    assert!(err.contains("OTEL_EXPORTER_OTLP_HEADERS"), "{err}");
}

#[test]
fn resolve_rejects_the_removed_otlp_endpoint() {
    let err = TelemetryConfig::resolve(
        &RawTelemetryArgs {
            otlp_endpoint: Some("https://collector.example.com".into()),
            ..raw()
        },
        OtelEnv::default(),
    )
    .unwrap_err()
    .message();
    assert!(err.contains("--otlp-endpoint"), "{err}");
    assert!(err.contains("OTEL_EXPORTER_OTLP_ENDPOINT"), "{err}");
}

#[test]
fn resolve_rejects_the_removed_otlp_header() {
    let err = TelemetryConfig::resolve(
        &RawTelemetryArgs {
            otlp_headers: vec!["authorization=Bearer xyz".into()],
            ..raw()
        },
        OtelEnv::default(),
    )
    .unwrap_err()
    .message();
    assert!(err.contains("--otlp-header"), "{err}");
    assert!(err.contains("OTEL_EXPORTER_OTLP_HEADERS"), "{err}");
}

#[test]
fn resolve_rejects_a_removed_option_alongside_a_good_endpoint() {
    let err = TelemetryConfig::resolve(
        &RawTelemetryArgs {
            uptrace_dsn: Some("https://tok@api.uptrace.dev".into()),
            ..raw()
        },
        generic("https://api.uptrace.dev"),
    )
    .unwrap_err()
    .message();
    assert!(err.contains("removed"), "{err}");
}

#[test]
fn classify_route_buckets() {
    assert_eq!(classify_route("/health"), "health");
    assert_eq!(classify_route("/query"), "query");
    assert_eq!(classify_route("/notes/"), "folder");
    assert_eq!(classify_route("/notes/a.md"), "note");
    assert_eq!(classify_route("/notes/Projects/a.md"), "note");
    assert_eq!(classify_route("/notes/Projects/"), "folder");
    assert_eq!(classify_route("/notes/Projects/anwesen/"), "folder");
    assert_eq!(classify_route("/"), "other");
    assert_eq!(classify_route("/favicon.ico"), "other");
}

#[test]
fn should_span_on_slow_or_5xx() {
    let threshold = Duration::from_millis(500);
    assert!(!should_span(Duration::from_millis(10), threshold, 200));
    assert!(!should_span(Duration::from_millis(499), threshold, 304));
    assert!(should_span(Duration::from_millis(500), threshold, 200));
    assert!(should_span(Duration::from_secs(305), threshold, 200));
    assert!(should_span(Duration::from_millis(1), threshold, 500));
    assert!(should_span(Duration::from_millis(1), threshold, 503));
    assert!(!should_span(Duration::from_millis(1), threshold, 404));
}

#[test]
fn conditional_get_outcomes() {
    assert_eq!(conditional_get(304, true), "not_modified");
    assert_eq!(conditional_get(304, false), "not_modified");
    assert_eq!(conditional_get(200, true), "revalidated");
    assert_eq!(conditional_get(200, false), "unconditional");
    assert_eq!(conditional_get(404, false), "unconditional");
}

#[test]
fn blank_variables_count_as_unset() {
    let env = OtelEnv::from_vars(OtelEnv {
        endpoint: Some("  ".into()),
        metrics_endpoint: Some("".into()),
        traces_endpoint: Some(" https://t ".into()),
        protocol: None,
        metrics_protocol: None,
        traces_protocol: None,
    });
    assert_eq!(env.endpoint, None);
    assert_eq!(env.metrics_endpoint, None);
    assert_eq!(env.traces_endpoint, Some("https://t".to_string()));
    assert!(env.any_endpoint());
    assert_eq!(env.describe(), "https://t");
    assert_eq!(OtelEnv::default().describe(), "");
}

#[test]
fn trace_headers_answer_by_name() {
    let h = TraceHeaders::from_headers(Some(b"00-ab-cd-01".to_vec()), Some(vec![0xff]));
    assert_eq!(h.get("traceparent"), Some("00-ab-cd-01"));
    assert_eq!(h.get("tracestate"), None);
    assert_eq!(h.get("other"), None);
    assert_eq!(h.keys(), vec!["traceparent"]);
    assert!(TraceHeaders::default().keys().is_empty());
    assert_eq!(span_name("GET", "note"), "GET note");
}
