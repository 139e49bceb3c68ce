//! Telemetry: when it is on, which settings are refused at startup, and how a
//! request is labelled.

use vstd::prelude::*;

use crate::headers;
use crate::outside;
use crate::text;

verus! {

/// A length of time, in nanoseconds.
#[derive(Debug, Clone, Copy, PartialEq, Eq, Structural)]
pub struct Duration {
    pub nanos: u128,
}

impl Duration {
    /// A length of time in milliseconds.
    pub fn from_millis(ms: u64) -> (r: Self)
        ensures
            r.nanos == ms * 1_000_000,
    {
        Duration { nanos: ms as u128 * 1_000_000 }
    }

    /// A length of time in seconds.
    pub fn from_secs(secs: u64) -> (r: Self)
        ensures
            r.nanos == secs * 1_000_000_000,
    {
        Duration { nanos: secs as u128 * 1_000_000_000 }
    }
}

/// The telemetry options of the command line. All but the threshold were
/// removed; they are still taken so that their use can be refused.
#[derive(Debug)]
pub struct RawTelemetryArgs {
    pub uptrace_dsn: Option<String>,
    pub otlp_endpoint: Option<String>,
    pub otlp_headers: Vec<String>,
    /// How many milliseconds make a request slow.
    pub slow_request_ms: u64,
}

impl Default for RawTelemetryArgs {
    fn default() -> (r: Self)
        ensures
            r.uptrace_dsn is None,
            r.otlp_endpoint is None,
            r.otlp_headers@.len() == 0,
            r.slow_request_ms == 0,
    {
        RawTelemetryArgs {
            uptrace_dsn: None,
            otlp_endpoint: None,
            otlp_headers: Vec::new(),
            slow_request_ms: 0,
        }
    }
}

/// The transport variables of the environment.
#[derive(Debug, PartialEq, Eq)]
pub struct OtelEnv {
    pub endpoint: Option<String>,
    pub metrics_endpoint: Option<String>,
    pub traces_endpoint: Option<String>,
    pub protocol: Option<String>,
    pub metrics_protocol: Option<String>,
    pub traces_protocol: Option<String>,
}

/// What an [`OtelEnv`] says.
#[verifier::ext_equal]
pub struct EnvData {
    pub endpoint: Option<Seq<char>>,
    pub metrics_endpoint: Option<Seq<char>>,
    pub traces_endpoint: Option<Seq<char>>,
    pub protocol: Option<Seq<char>>,
    pub metrics_protocol: Option<Seq<char>>,
    pub traces_protocol: Option<Seq<char>>,
}

impl View for OtelEnv {
    type V = EnvData;

    open spec fn view(&self) -> EnvData {
        EnvData {
            endpoint: text::opt_view(self.endpoint),
            metrics_endpoint: text::opt_view(self.metrics_endpoint),
            traces_endpoint: text::opt_view(self.traces_endpoint),
            protocol: text::opt_view(self.protocol),
            metrics_protocol: text::opt_view(self.metrics_protocol),
            traces_protocol: text::opt_view(self.traces_protocol),
        }
    }
}

/// An environment without any of the variables.
pub open spec fn unset() -> EnvData {
    EnvData {
        endpoint: None,
        metrics_endpoint: None,
        traces_endpoint: None,
        protocol: None,
        metrics_protocol: None,
        traces_protocol: None,
    }
}

impl Default for OtelEnv {
    fn default() -> (r: Self)
        ensures
            r@ == unset(),
    {
        OtelEnv {
            endpoint: None,
            metrics_endpoint: None,
            traces_endpoint: None,
            protocol: None,
            metrics_protocol: None,
            traces_protocol: None,
        }
    }
}

fn copy_option(s: &Option<String>) -> (r: Option<String>)
    ensures
        text::opt_view(r) == text::opt_view(*s),
{
    match s {
        Some(s) => Some(s.clone()),
        None => None,
    }
}

impl Clone for OtelEnv {
    fn clone(&self) -> (r: Self)
        ensures
            r@ == self@,
    {
        OtelEnv {
            endpoint: copy_option(&self.endpoint),
            metrics_endpoint: copy_option(&self.metrics_endpoint),
            traces_endpoint: copy_option(&self.traces_endpoint),
            protocol: copy_option(&self.protocol),
            metrics_protocol: copy_option(&self.metrics_protocol),
            traces_protocol: copy_option(&self.traces_protocol),
        }
    }
}

/// A variable as it counts: without white space around it, and unset if
/// nothing is left.
pub open spec fn cleaned(v: Option<Seq<char>>) -> Option<Seq<char>> {
    match v {
        Some(s) => if text::trimmed(s).len() == 0 {
            None
        } else {
            Some(text::trimmed(s))
        },
        None => None,
    }
}

fn clean(v: Option<String>) -> (r: Option<String>)
    ensures
        text::opt_view(r) == cleaned(text::opt_view(v)),
{
    match v {
        Some(s) => {
            let t = text::trim(s.as_str());
            if t.as_str().is_empty() {
                None
            } else {
                Some(t)
            }
        },
        None => None,
    }
}

/// Whether an endpoint is set.
pub open spec fn has_endpoint(env: EnvData) -> bool {
    env.endpoint is Some || env.metrics_endpoint is Some || env.traces_endpoint is Some
}

/// The endpoint to speak of: the general one, else one for a signal.
pub open spec fn shown_endpoint(env: EnvData) -> Seq<char> {
    match env.endpoint {
        Some(s) => s,
        None => match env.metrics_endpoint {
            Some(s) => s,
            None => match env.traces_endpoint {
                Some(s) => s,
                None => seq![],
            },
        },
    }
}

impl OtelEnv {
    /// The variables as they count, given as they stand in the environment: a
    /// blank one counts as unset, since an empty endpoint would otherwise
    /// export to a default address.
    pub fn from_vars(raw: OtelEnv) -> (r: Self)
        ensures
            r@ == (EnvData {
                endpoint: cleaned(raw@.endpoint),
                metrics_endpoint: cleaned(raw@.metrics_endpoint),
                traces_endpoint: cleaned(raw@.traces_endpoint),
                protocol: cleaned(raw@.protocol),
                metrics_protocol: cleaned(raw@.metrics_protocol),
                traces_protocol: cleaned(raw@.traces_protocol),
            }),
    {
        OtelEnv {
            endpoint: clean(raw.endpoint),
            metrics_endpoint: clean(raw.metrics_endpoint),
            traces_endpoint: clean(raw.traces_endpoint),
            protocol: clean(raw.protocol),
            metrics_protocol: clean(raw.metrics_protocol),
            traces_protocol: clean(raw.traces_protocol),
        }
    }

    /// Whether an endpoint is set.
    pub fn any_endpoint(&self) -> (r: bool)
        ensures
            r == has_endpoint(self@),
    {
        self.endpoint.is_some() || self.metrics_endpoint.is_some() || self.traces_endpoint.is_some()
    }

    /// The endpoint to name in the log.
    pub fn describe(&self) -> (r: String)
        ensures
            r@ == shown_endpoint(self@),
    {
        match &self.endpoint {
            Some(s) => {
                return s.clone();
            },
            None => {},
        }
        match &self.metrics_endpoint {
            Some(s) => {
                return s.clone();
            },
            None => {},
        }
        match &self.traces_endpoint {
            Some(s) => s.clone(),
            None => {
                let none = String::new();
                assert(none@ =~= seq![]);
                none
            },
        }
    }
}

/// Why the telemetry settings are refused.
#[derive(Debug, PartialEq, Eq)]
pub enum TelemetryError {
    /// An option that was removed, and what to use instead.
    Removed { option: String, replacement: String },
    /// A base address with a query or a fragment.
    Endpoint { endpoint: String, tail: String },
    /// A protocol variable that asks for what the exporter cannot speak.
    Protocol { name: String, value: String },
}

/// What a [`TelemetryError`] says.
pub enum TelemetryErrorData {
    Removed { option: Seq<char>, replacement: Seq<char> },
    Endpoint { endpoint: Seq<char>, tail: Seq<char> },
    Protocol { name: Seq<char>, value: Seq<char> },
}

impl View for TelemetryError {
    type V = TelemetryErrorData;

    open spec fn view(&self) -> TelemetryErrorData {
        match self {
            TelemetryError::Removed { option, replacement } => TelemetryErrorData::Removed {
                option: option@,
                replacement: replacement@,
            },
            TelemetryError::Endpoint { endpoint, tail } => TelemetryErrorData::Endpoint {
                endpoint: endpoint@,
                tail: tail@,
            },
            TelemetryError::Protocol { name, value } => TelemetryErrorData::Protocol {
                name: name@,
                value: value@,
            },
        }
    }
}

/// How a telemetry error reads.
pub open spec fn refusal_text(e: TelemetryErrorData) -> Seq<char> {
    match e {
        TelemetryErrorData::Removed { option, replacement } => option
            + " was removed in anwesen 0.3.0; use "@ + replacement + " instead"@,
        TelemetryErrorData::Endpoint { endpoint, tail } => "OTEL_EXPORTER_OTLP_ENDPOINT "@
            + outside::quoted(endpoint) + " has a trailing "@ + outside::quoted(tail)
            + "; the exporter would append the signal path after it and export nowhere. Pass the base URL alone, and put an uptrace DSN in OTEL_EXPORTER_OTLP_HEADERS=uptrace-dsn=<the DSN, verbatim>"@,
        TelemetryErrorData::Protocol { name, value } => name + "="@ + outside::quoted(value)
            + " is not supported; this build speaks http/protobuf only. Unset the variable, and point the endpoint at the collector's HTTP port rather than its gRPC one"@,
    }
}

impl TelemetryError {
    /// How the error reads.
    pub fn message(&self) -> (r: String)
        ensures
            r@ == refusal_text(self@),
    {
        match self {
            TelemetryError::Removed { option, replacement } => {
                let mut m = text::concat(
                    option.as_str(),
                    " was removed in anwesen 0.3.0; use ",
                );
                m.append(replacement.as_str());
                m.append(" instead");
                m
            },
            TelemetryError::Endpoint { endpoint, tail } => {
                let mut m = text::concat(
                    "OTEL_EXPORTER_OTLP_ENDPOINT ",
                    outside::quote(endpoint.as_str()).as_str(),
                );
                m.append(" has a trailing ");
                m.append(outside::quote(tail.as_str()).as_str());
                m.append(
                    "; the exporter would append the signal path after it and export nowhere. Pass the base URL alone, and put an uptrace DSN in OTEL_EXPORTER_OTLP_HEADERS=uptrace-dsn=<the DSN, verbatim>",
                );
                m
            },
            TelemetryError::Protocol { name, value } => {
                let mut m = text::concat(name.as_str(), "=");
                m.append(outside::quote(value.as_str()).as_str());
                m.append(
                    " is not supported; this build speaks http/protobuf only. Unset the variable, and point the endpoint at the collector's HTTP port rather than its gRPC one",
                );
                m
            },
        }
    }
}

/// The first removed option that is used, and what to use instead.
pub open spec fn removed_option(raw: RawTelemetryArgs) -> Option<TelemetryErrorData> {
    if raw.uptrace_dsn is Some {
        Some(
            TelemetryErrorData::Removed {
                option: "--uptrace-dsn / ANWESEN_UPTRACE_DSN"@,
                replacement: "OTEL_EXPORTER_OTLP_ENDPOINT=https://api.uptrace.dev plus OTEL_EXPORTER_OTLP_HEADERS=uptrace-dsn=<the DSN, verbatim>"@,
            },
        )
    } else if raw.otlp_endpoint is Some {
        Some(
            TelemetryErrorData::Removed {
                option: "--otlp-endpoint / ANWESEN_OTLP_ENDPOINT"@,
                replacement: "OTEL_EXPORTER_OTLP_ENDPOINT"@,
            },
        )
    } else if raw.otlp_headers@.len() > 0 {
        Some(
            TelemetryErrorData::Removed {
                option: "--otlp-header / ANWESEN_OTLP_HEADERS"@,
                replacement: "OTEL_EXPORTER_OTLP_HEADERS"@,
            },
        )
    } else {
        None
    }
}

/// Whether an optional error is what `d` says.
pub open spec fn refusal_is(r: Option<TelemetryError>, d: Option<TelemetryErrorData>) -> bool {
    match (r, d) {
        (Some(e), Some(x)) => e@ == x,
        (None, None) => true,
        _ => false,
    }
}

fn check_removed(raw: &RawTelemetryArgs) -> (r: Option<TelemetryError>)
    ensures
        refusal_is(r, removed_option(*raw)),
{
    if raw.uptrace_dsn.is_some() {
        Some(
            TelemetryError::Removed {
                option: text::copy_of("--uptrace-dsn / ANWESEN_UPTRACE_DSN"),
                replacement: text::copy_of(
                    "OTEL_EXPORTER_OTLP_ENDPOINT=https://api.uptrace.dev plus OTEL_EXPORTER_OTLP_HEADERS=uptrace-dsn=<the DSN, verbatim>",
                ),
            },
        )
    } else if raw.otlp_endpoint.is_some() {
        Some(
            TelemetryError::Removed {
                option: text::copy_of("--otlp-endpoint / ANWESEN_OTLP_ENDPOINT"),
                replacement: text::copy_of("OTEL_EXPORTER_OTLP_ENDPOINT"),
            },
        )
    } else if raw.otlp_headers.len() > 0 {
        Some(
            TelemetryError::Removed {
                option: text::copy_of("--otlp-header / ANWESEN_OTLP_HEADERS"),
                replacement: text::copy_of("OTEL_EXPORTER_OTLP_HEADERS"),
            },
        )
    } else {
        None
    }
}

/// How much of an address stands before a query or a fragment.
pub open spec fn base_length(s: Seq<char>) -> nat {
    let q = text::before(s, '?');
    let f = text::before(s, '#');
    if q < f {
        q
    } else {
        f
    }
}

/// Why a base address is refused: its query or fragment would come to stand
/// before the path that the exporter appends.
pub open spec fn endpoint_refused(s: Seq<char>) -> Option<TelemetryErrorData> {
    if base_length(s) < s.len() {
        Some(
            TelemetryErrorData::Endpoint { endpoint: s, tail: s.skip(base_length(s) as int) },
        )
    } else {
        None
    }
}

fn check_generic_endpoint(endpoint: &str) -> (r: Option<TelemetryError>)
    ensures
        refusal_is(r, endpoint_refused(endpoint@)),
{
    let x = text::chars_of(endpoint);
    let n: usize = x.len();
    let mut i: usize = 0;
    while i < n && x[i] != '?' && x[i] != '#'
        invariant
            i <= n == x@.len(),
            x@ == endpoint@,
            forall|j: int| 0 <= j < i ==> x@[j] != '?' && x@[j] != '#',
        decreases n - i,
    {
        i += 1;
    }
    proof {
        let s = endpoint@;
        text::before_bounds(s, '?');
        text::before_bounds(s, '#');
        if i < n {
            if s[i as int] == '?' {
                text::before_is(s, '?', i as nat);
            } else {
                text::before_is(s, '#', i as nat);
            }
        } else {
            text::before_is(s, '?', n as nat);
            text::before_is(s, '#', n as nat);
        }
    }
    if i < n {
        assert(x@.subrange(i as int, n as int) =~= endpoint@.skip(i as int));
        Some(
            TelemetryError::Endpoint {
                endpoint: text::copy_of(endpoint),
                tail: text::string_of(&x, i, n),
            },
        )
    } else {
        None
    }
}

/// Why one protocol variable is refused: only one protocol is spoken.
pub open spec fn protocol_refused(name: Seq<char>, v: Option<Seq<char>>) -> Option<
    TelemetryErrorData,
> {
    match v {
        Some(s) => if s == "http/protobuf"@ {
            None
        } else {
            Some(TelemetryErrorData::Protocol { name, value: s })
        },
        None => None,
    }
}

/// Why the protocol variables are refused, the first of them.
pub open spec fn protocols_refused(env: EnvData) -> Option<TelemetryErrorData> {
    match protocol_refused("OTEL_EXPORTER_OTLP_PROTOCOL"@, env.protocol) {
        Some(e) => Some(e),
        None => match protocol_refused(
            "OTEL_EXPORTER_OTLP_METRICS_PROTOCOL"@,
            env.metrics_protocol,
        ) {
            Some(e) => Some(e),
            None => protocol_refused("OTEL_EXPORTER_OTLP_TRACES_PROTOCOL"@, env.traces_protocol),
        },
    }
}

fn check_protocol(name: &str, v: &Option<String>) -> (r: Option<TelemetryError>)
    ensures
        refusal_is(r, protocol_refused(name@, text::opt_view(*v))),
{
    match v {
        Some(s) => if text::same(s.as_str(), "http/protobuf") {
            None
        } else {
            Some(TelemetryError::Protocol { name: text::copy_of(name), value: s.clone() })
        },
        None => None,
    }
}

fn check_protocols(env: &OtelEnv) -> (r: Option<TelemetryError>)
    ensures
        refusal_is(r, protocols_refused(env@)),
{
    match check_protocol("OTEL_EXPORTER_OTLP_PROTOCOL", &env.protocol) {
        Some(e) => {
            return Some(e);
        },
        None => {},
    }
    match check_protocol("OTEL_EXPORTER_OTLP_METRICS_PROTOCOL", &env.metrics_protocol) {
        Some(e) => {
            return Some(e);
        },
        None => {},
    }
    check_protocol("OTEL_EXPORTER_OTLP_TRACES_PROTOCOL", &env.traces_protocol)
}

/// Telemetry that is on.
#[derive(Debug, PartialEq, Eq)]
pub struct TelemetryConfig {
    /// From how long on a request is slow.
    pub slow_request: Duration,
    /// The transport variables, for the log.
    pub env: OtelEnv,
}

/// Why the telemetry settings are refused: a removed option first; then, if an
/// endpoint is set, the base address and the protocols.
pub open spec fn settings_refused(raw: RawTelemetryArgs, env: EnvData) -> Option<
    TelemetryErrorData,
> {
    match removed_option(raw) {
        Some(e) => Some(e),
        None => if !has_endpoint(env) {
            None
        } else {
            match (match env.endpoint {
                Some(s) => endpoint_refused(s),
                None => None,
            }) {
                Some(e) => Some(e),
                None => protocols_refused(env),
            }
        },
    }
}

impl TelemetryConfig {
    /// Decides whether telemetry is on: it is if an endpoint is set. A removed
    /// option, a base address with a query or a fragment and a protocol that is
    /// not spoken are errors, since each would export nowhere without a word.
    pub fn resolve(raw: &RawTelemetryArgs, env: OtelEnv) -> (r: Result<
        Option<TelemetryConfig>,
        TelemetryError,
    >)
        ensures
            match settings_refused(*raw, env@) {
                Some(e) => r matches Err(err) && err@ == e,
                None => r matches Ok(c) && (c is Some <==> has_endpoint(env@)) && (
                c matches Some(config) ==> config.slow_request.nanos == raw.slow_request_ms
                    * 1_000_000 && config.env@ == env@),
            },
    {
        match check_removed(raw) {
            Some(e) => {
                return Err(e);
            },
            None => {},
        }
        if !env.any_endpoint() {
            return Ok(None);
        }
        match &env.endpoint {
            Some(endpoint) => match check_generic_endpoint(endpoint.as_str()) {
                Some(e) => {
                    return Err(e);
                },
                None => {},
            },
            None => {},
        }
        match check_protocols(&env) {
            Some(e) => {
                return Err(e);
            },
            None => {},
        }
        Ok(
            Some(
                TelemetryConfig {
                    slow_request: Duration::from_millis(raw.slow_request_ms),
                    env,
                },
            ),
        )
    }
}

/// One resource attribute.
#[derive(Debug, PartialEq, Eq)]
pub struct Attribute {
    pub key: String,
    pub value: String,
}

/// Whether a list of attributes (`a=1,b=2`) sets a key.
pub open spec fn sets_key(attrs: Seq<char>, key: Seq<char>) -> bool {
    exists|i: int|
        0 <= i < text::split(attrs, ',').len() && entry_sets(
            #[trigger] text::split(attrs, ',')[i],
            key,
        )
}

/// Whether one entry of a list of attributes sets a key.
pub open spec fn entry_sets(entry: Seq<char>, key: Seq<char>) -> bool {
    match text::cut(entry, '=') {
        Some((k, _)) => text::trimmed(k) == key,
        None => false,
    }
}

fn attrs_set(attrs: &str, key: &str) -> (r: bool)
    ensures
        r == sets_key(attrs@, key@),
{
    let entries = text::split_at_each(attrs, ',');
    let ghost all = text::views(entries@);
    let mut i: usize = 0;
    while i < entries.len()
        invariant
            i <= entries@.len(),
            all == text::views(entries@),
            all == text::split(attrs@, ','),
            forall|j: int| 0 <= j < i ==> !entry_sets(#[trigger] all[j], key@),
        decreases entries@.len() - i,
    {
        let found = match text::split_once(entries[i].as_str(), '=') {
            Some((k, _)) => text::same(text::trim(k.as_str()).as_str(), key),
            None => false,
        };
        assert(found == entry_sets(all[i as int], key@));
        if found {
            return true;
        }
        i += 1;
    }
    false
}

/// Whether the environment names the service: by its own variable, if that is
/// not blank, or among the resource attributes.
pub open spec fn service_named(service_name: Option<Seq<char>>, attrs: Seq<char>) -> bool {
    cleaned(service_name) is Some || sets_key(attrs, "service.name"@)
}

/// The attributes that identify the service by default: each of them only if
/// the environment does not set it, since it would otherwise win over what the
/// environment says.
pub fn default_resource_attrs(
    service_name: Option<&str>,
    resource_attributes: Option<&str>,
    version: &str,
) -> (r: Vec<Attribute>)
    ensures
        ({
            let name = match service_name {
                Some(s) => Some(s@),
                None => None,
            };
            let attrs = match resource_attributes {
                Some(s) => s@,
                None => seq![],
            };
            attributes_view(r@) == (if service_named(name, attrs) {
                seq![]
            } else {
                seq![("service.name"@, "anwesen"@)]
            }) + (if sets_key(attrs, "service.version"@) {
                seq![]
            } else {
                seq![("service.version"@, version@)]
            })
        }),
{
    let attrs = match resource_attributes {
        Some(s) => text::copy_of(s),
        None => String::new(),
    };
    proof {
        if resource_attributes is None {
            assert(attrs@ =~= seq![]);
        }
    }
    let blank = match service_name {
        Some(s) => text::trim(s).as_str().is_empty(),
        None => true,
    };
    let name_key = outside::service_name_key();
    let version_key = outside::service_version_key();
    let mut out: Vec<Attribute> = Vec::new();
    assert(attributes_view(out@) =~= seq![]);
    if blank && !attrs_set(attrs.as_str(), name_key.as_str()) {
        out.push(Attribute { key: name_key, value: text::copy_of("anwesen") });
        assert(attributes_view(out@) =~= seq![("service.name"@, "anwesen"@)]);
    }
    let ghost before = attributes_view(out@);
    if !attrs_set(attrs.as_str(), version_key.as_str()) {
        out.push(Attribute { key: version_key, value: text::copy_of(version) });
        assert(attributes_view(out@) =~= before + seq![("service.version"@, version@)]);
    } else {
        assert(before =~= before + seq![]);
    }
    out
}

/// What a list of attributes says.
pub open spec fn attributes_view(v: Seq<Attribute>) -> Seq<(Seq<char>, Seq<char>)> {
    v.map_values(|a: Attribute| (a.key@, a.value@))
}

/// The label of a request path.
pub open spec fn route_of(path: Seq<char>) -> Seq<char> {
    if path == "/health"@ {
        "health"@
    } else if path == "/query"@ {
        "query"@
    } else if text::has_prefix(path, "/notes/"@) {
        if path.last() == '/' {
            "folder"@
        } else {
            "note"@
        }
    } else {
        "other"@
    }
}

/// The label of a request path: a note and a folder are told apart by the
/// trailing slash.
pub fn classify_route(path: &str) -> (r: &'static str)
    ensures
        r@ == route_of(path@),
{
    if text::same(path, "/health") {
        "health"
    } else if text::same(path, "/query") {
        "query"
    } else if text::starts_with(path, "/notes/") {
        proof {
            reveal_strlit("/notes/");
            reveal_strlit("/");
        }
        let folder = text::strip_suffix(path, "/").is_some();
        proof {
            assert(path@.skip(path@.len() - 1) =~= seq![path@.last()]);
            assert("/"@ =~= seq!['/']);
            if folder {
                assert(path@.skip(path@.len() - 1)[0] == '/');
            }
        }
        if folder {
            "folder"
        } else {
            "note"
        }
    } else {
        "other"
    }
}

/// Whether a request is recorded as a span besides being counted: it was slow,
/// or was answered with a server error.
pub fn should_span(duration: Duration, slow_request: Duration, status: u16) -> (r: bool)
    ensures
        r == (duration.nanos >= slow_request.nanos || status >= 500),
{
    duration.nanos >= slow_request.nanos || status >= 500
}

/// The label of a conditional request's outcome.
pub open spec fn conditional_outcome(status: u16, if_none_match_present: bool) -> Seq<char> {
    if status == 304 {
        "not_modified"@
    } else if if_none_match_present {
        "revalidated"@
    } else {
        "unconditional"@
    }
}

/// The label of a conditional request's outcome: answered as unchanged, sent
/// in full although a tag was given, or asked for without a tag.
pub fn conditional_get(status: u16, if_none_match_present: bool) -> (r: &'static str)
    ensures
        r@ == conditional_outcome(status, if_none_match_present),
{
    if status == 304 {
        "not_modified"
    } else if if_none_match_present {
        "revalidated"
    } else {
        "unconditional"
    }
}

/// The trace headers of a request.
#[derive(Debug)]
pub struct TraceHeaders {
    pub traceparent: Option<String>,
    pub tracestate: Option<String>,
}

impl Default for TraceHeaders {
    fn default() -> (r: Self)
        ensures
            r.traceparent is None,
            r.tracestate is None,
    {
        TraceHeaders { traceparent: None, tracestate: None }
    }
}

/// The trace header of a name.
pub open spec fn trace_header(h: TraceHeaders, key: Seq<char>) -> Option<Seq<char>> {
    if key == "traceparent"@ {
        text::opt_view(h.traceparent)
    } else if key == "tracestate"@ {
        text::opt_view(h.tracestate)
    } else {
        None
    }
}

impl TraceHeaders {
    /// The trace headers of a request, given their values; one that is not
    /// text counts as missing.
    pub fn from_headers(traceparent: Option<Vec<u8>>, tracestate: Option<Vec<u8>>) -> (r: Self)
        ensures
            text::opt_view(r.traceparent) == headers::optional_header_text(traceparent),
            text::opt_view(r.tracestate) == headers::optional_header_text(tracestate),
    {
        TraceHeaders {
            traceparent: match traceparent {
                Some(b) => headers::read_header(b.as_slice()),
                None => None,
            },
            tracestate: match tracestate {
                Some(b) => headers::read_header(b.as_slice()),
                None => None,
            },
        }
    }

    /// The trace header of a name.
    pub fn get(&self, key: &str) -> (r: Option<&str>)
        ensures
            match trace_header(*self, key@) {
                Some(s) => r matches Some(t) && t@ == s,
                None => r is None,
            },
    {
        let found = if text::same(key, "traceparent") {
            &self.traceparent
        } else if text::same(key, "tracestate") {
            &self.tracestate
        } else {
            return None;
        };
        match found {
            Some(s) => Some(s.as_str()),
            None => None,
        }
    }

    /// The names of the trace headers that are there.
    pub fn keys(&self) -> (r: Vec<&'static str>)
        ensures
            r@.map_values(|s: &'static str| s@) == (if self.traceparent is Some {
                seq!["traceparent"@]
            } else {
                seq![]
            }) + (if self.tracestate is Some {
                seq!["tracestate"@]
            } else {
                seq![]
            }),
    {
        let mut out: Vec<&'static str> = Vec::new();
        if self.traceparent.is_some() {
            out.push("traceparent");
        }
        if self.tracestate.is_some() {
            out.push("tracestate");
        }
        proof {
            let want = (if self.traceparent is Some {
                seq!["traceparent"@]
            } else {
                seq![]
            }) + (if self.tracestate is Some {
                seq!["tracestate"@]
            } else {
                seq![]
            });
            assert(out@.map_values(|s: &'static str| s@) =~= want);
        }
        out
    }
}

/// The name of the span of a request.
pub fn span_name(method: &str, route: &str) -> (r: String)
    ensures
        r@ == method@ + " "@ + route@,
{
    let mut out = text::concat(method, " ");
    out.append(route);
    out
}

/// A removed option is always refused, whatever else is set.
pub proof fn removed_option_is_refused(raw: RawTelemetryArgs, env: EnvData)
    requires
        raw.uptrace_dsn is Some || raw.otlp_endpoint is Some || raw.otlp_headers@.len() > 0,
    ensures
        settings_refused(raw, env) is Some,
        settings_refused(raw, env)->0 is Removed,
{
}

/// Without an endpoint the protocols do not matter: nothing is refused unless a
/// removed option is used.
pub proof fn off_refuses_nothing(raw: RawTelemetryArgs, env: EnvData)
    requires
        !has_endpoint(env),
        removed_option(raw) is None,
    ensures
        settings_refused(raw, env) is None,
{
}

/// The address for one signal is taken as it is: its query and its fragment
/// refuse nothing.
pub proof fn signal_addresses_are_free(
    raw: RawTelemetryArgs,
    env: EnvData,
    metrics: Option<Seq<char>>,
    traces: Option<Seq<char>>,
)
    requires
        env.endpoint is Some,
    ensures
        settings_refused(
            raw,
            EnvData { metrics_endpoint: metrics, traces_endpoint: traces, ..env },
        ) == settings_refused(raw, env),
{
}

/// A variable that is blank counts as unset; any other counts without the white
/// space around it.
pub proof fn blank_variables_are_unset(s: Seq<char>)
    ensures
        cleaned(None) is None,
        (forall|i: int| 0 <= i < s.len() ==> text::is_white(#[trigger] s[i])) ==> cleaned(Some(s))
            is None,
        s.len() > 0 && !text::is_white(s[0]) && !text::is_white(s.last()) ==> cleaned(Some(s))
            == Some(s),
        cleaned(Some(s)) matches Some(t) ==> t.len() > 0 && t == text::trimmed(s),
{
    if forall|i: int| 0 <= i < s.len() ==> text::is_white(#[trigger] s[i]) {
        text::trimming_takes_off_white_space(s);
        if text::trimmed(s).len() > 0 {
            let (i, j) = choose|i: int, j: int|
                0 <= i <= j <= s.len() && #[trigger] s.subrange(i, j) == text::trimmed(s) && (forall|
                    k: int,
                |
                    (0 <= k < i || j <= k < s.len()) ==> text::is_white(#[trigger] s[k]));
            assert(s.subrange(i, j)[0] == s[i]);
        }
    }
}

/// A base address is refused exactly if it has a question mark or a number sign
/// in it; it is told together with what stands from the first of them on.
pub proof fn tails_are_told_from_the_first_mark(base: Seq<char>, mark: char, rest: Seq<char>)
    requires
        !base.contains('?'),
        !base.contains('#'),
        mark == '?' || mark == '#',
    ensures
        endpoint_refused(base) is None,
        endpoint_refused(base + seq![mark] + rest) == Some(
            TelemetryErrorData::Endpoint {
                endpoint: base + seq![mark] + rest,
                tail: seq![mark] + rest,
            },
        ),
{
    let s = base + seq![mark] + rest;
    let n = base.len();
    assert forall|j: int| 0 <= j < n implies base[j] != '?' && base[j] != '#' by {
        assert(base.contains(base[j]));
    }
    text::before_is(base, '?', n);
    text::before_is(base, '#', n);
    assert(s[n as int] == mark);
    text::before_is(s, mark, n);
    text::before_bounds(s, '?');
    text::before_bounds(s, '#');
    if mark == '?' {
        if text::before(s, '#') < n {
            assert(s[text::before(s, '#') as int] == base[text::before(s, '#') as int]);
        }
    } else {
        if text::before(s, '?') < n {
            assert(s[text::before(s, '?') as int] == base[text::before(s, '?') as int]);
        }
        if text::before(s, '?') == n {
            assert(s[n as int] == '?');
        }
    }
    assert(s.skip(n as int) =~= seq![mark] + rest);
}

/// Settings are taken exactly if no removed option is used and, once an
/// endpoint is set, the base address has no query and no fragment and every
/// protocol that is set is the one that is spoken.
pub proof fn settings_are_taken_if_they_work(raw: RawTelemetryArgs, env: EnvData)
    ensures
        settings_refused(raw, env) is None <==> raw.uptrace_dsn is None && raw.otlp_endpoint is None
            && raw.otlp_headers@.len() == 0 && ((env.endpoint is None && env.metrics_endpoint is None
            && env.traces_endpoint is None) || ((env.endpoint matches Some(s) ==> !s.contains('?')
            && !s.contains('#')) && (env.protocol matches Some(p) ==> p == "http/protobuf"@) && (
        env.metrics_protocol matches Some(p) ==> p == "http/protobuf"@) && (
        env.traces_protocol matches Some(p) ==> p == "http/protobuf"@))),
{
    if env.endpoint is Some {
        let s = env.endpoint->0;
        text::before_bounds(s, '?');
        text::before_bounds(s, '#');
        let q = text::before(s, '?');
        let f = text::before(s, '#');
        if q < s.len() {
            assert(s.contains(s[q as int]));
        }
        if f < s.len() {
            assert(s.contains(s[f as int]));
        }
        if s.contains('?') {
            let i = s.index_of('?');
            assert(s[i] == '?');
        }
        if s.contains('#') {
            let i = s.index_of('#');
            assert(s[i] == '#');
        }
    }
}

/// A protocol that is refused is told under the name of its own variable,
/// together with its value.
pub proof fn refused_protocols_are_named(env: EnvData)
    ensures
        protocols_refused(env) matches Some(e) ==> e is Protocol,
        (env.protocol matches Some(p) && p != "http/protobuf"@) ==> protocols_refused(env) == Some(
            TelemetryErrorData::Protocol {
                name: "OTEL_EXPORTER_OTLP_PROTOCOL"@,
                value: env.protocol->0,
            },
        ),
        env.protocol is None && (env.metrics_protocol matches Some(p) && p != "http/protobuf"@)
            ==> protocols_refused(env) == Some(
            TelemetryErrorData::Protocol {
                name: "OTEL_EXPORTER_OTLP_METRICS_PROTOCOL"@,
                value: env.metrics_protocol->0,
            },
        ),
        env.protocol is None && env.metrics_protocol is None && (env.traces_protocol matches Some(p)
            && p != "http/protobuf"@) ==> protocols_refused(env) == Some(
            TelemetryErrorData::Protocol {
                name: "OTEL_EXPORTER_OTLP_TRACES_PROTOCOL"@,
                value: env.traces_protocol->0,
            },
        ),
{
}

/// A refusal says what it is about: the option and what to use instead, the
/// address and its tail, or the variable and its value.
pub proof fn refusals_say_what_they_are_about(a: Seq<char>, b: Seq<char>)
    ensures
        text::is_within(a, refusal_text(TelemetryErrorData::Removed { option: a, replacement: b })),
        text::is_within(b, refusal_text(TelemetryErrorData::Removed { option: a, replacement: b })),
        text::is_within(
            outside::quoted(a),
            refusal_text(TelemetryErrorData::Endpoint { endpoint: a, tail: b }),
        ),
        text::is_within(
            outside::quoted(b),
            refusal_text(TelemetryErrorData::Endpoint { endpoint: a, tail: b }),
        ),
        text::is_within(a, refusal_text(TelemetryErrorData::Protocol { name: a, value: b })),
        text::is_within(
            outside::quoted(b),
            refusal_text(TelemetryErrorData::Protocol { name: a, value: b }),
        ),
{
    let none = Seq::<char>::empty();
    let x = refusal_text(TelemetryErrorData::Removed { option: a, replacement: b });
    let m = " was removed in anwesen 0.3.0; use "@;
    text::within_by(none, a, m + b + " instead"@);
    assert(none + a + (m + b + " instead"@) =~= x);
    text::within_by(a + m, b, " instead"@);
    let q = outside::quoted(a);
    let t = outside::quoted(b);
    let y = refusal_text(TelemetryErrorData::Endpoint { endpoint: a, tail: b });
    let head = "OTEL_EXPORTER_OTLP_ENDPOINT "@;
    let mid = " has a trailing "@;
    let end = "; the exporter would append the signal path after it and export nowhere. Pass the base URL alone, and put an uptrace DSN in OTEL_EXPORTER_OTLP_HEADERS=uptrace-dsn=<the DSN, verbatim>"@;
    text::within_by(head, q, mid + t + end);
    assert(head + q + (mid + t + end) =~= y);
    text::within_by(head + q + mid, t, end);
    let z = refusal_text(TelemetryErrorData::Protocol { name: a, value: b });
    let last = " is not supported; this build speaks http/protobuf only. Unset the variable, and point the endpoint at the collector's HTTP port rather than its gRPC one"@;
    text::within_by(none, a, "="@ + t + last);
    assert(none + a + ("="@ + t + last) =~= z);
    text::within_by(a + "="@, t, last);
}

/// A list of attributes sets a key exactly if one of its entries, which stand
/// with commas between them, has that key before its first equals sign, white
/// space left aside.
pub proof fn attributes_are_told_by_commas(
    keys: Seq<Seq<char>>,
    values: Seq<Seq<char>>,
    entries: Seq<Seq<char>>,
    key: Seq<char>,
)
    requires
        entries.len() > 0,
        keys.len() == entries.len(),
        values.len() == entries.len(),
        forall|i: int|
            0 <= i < entries.len() ==> #[trigger] entries[i] == keys[i] + seq!['='] + values[i],
        forall|i: int| 0 <= i < entries.len() ==> !(#[trigger] entries[i]).contains(','),
        forall|i: int| 0 <= i < keys.len() ==> !(#[trigger] keys[i]).contains('='),
    ensures
        sets_key(text::joined(entries, seq![',']), key) <==> exists|i: int|
            0 <= i < keys.len() && text::trimmed(#[trigger] keys[i]) == key,
{
    let v = text::joined(entries, seq![',']);
    text::joined_pieces_split_again(entries, ',');
    assert(text::split(v, ',') == entries);
    assert forall|i: int| 0 <= i < entries.len() implies entry_sets(#[trigger] entries[i], key) == (
    text::trimmed(keys[i]) == key) by {
        text::cut_is_at_the_first(keys[i], '=', values[i]);
    }
    if sets_key(v, key) {
        let i = choose|i: int|
            0 <= i < text::split(v, ',').len() && entry_sets(#[trigger] text::split(v, ',')[i], key);
        assert(entry_sets(entries[i], key));
        assert(text::trimmed(keys[i]) == key);
    }
    if exists|i: int| 0 <= i < keys.len() && text::trimmed(#[trigger] keys[i]) == key {
        let i = choose|i: int| 0 <= i < keys.len() && text::trimmed(#[trigger] keys[i]) == key;
        assert(entry_sets(entries[i], key));
        assert(entry_sets(text::split(v, ',')[i], key));
    }
}

/// The service is named by its own variable or by its attribute; without
/// either it is not.
pub proof fn services_are_named_either_way(s: Seq<char>, attrs: Seq<char>)
    ensures
        text::trimmed(s).len() > 0 ==> service_named(Some(s), attrs),
        sets_key(attrs, "service.name"@) ==> service_named(None, attrs),
        service_named(None, attrs) ==> sets_key(attrs, "service.name"@),
{
}

/// What stands under `/notes/` is labelled as a note, or as a folder if it ends
/// in a slash; health and query have labels of their own, and everything else
/// shares one.
pub proof fn routes_have_their_labels(rest: Seq<char>, path: Seq<char>)
    ensures
        route_of("/health"@) == "health"@,
        route_of("/query"@) == "query"@,
        route_of("/notes/"@ + rest) == if rest.len() == 0 || rest.last() == '/' {
            "folder"@
        } else {
            "note"@
        },
        path != "/health"@ && path != "/query"@ && !text::has_prefix(path, "/notes/"@) ==> route_of(
            path,
        ) == "other"@,
{
    reveal_strlit("/health");
    reveal_strlit("/query");
    reveal_strlit("/notes/");
    let p = "/notes/"@ + rest;
    assert(p[1] == 'n');
    assert("/health"@[1] == 'h' && "/query"@[1] == 'q');
    text::prefix_and_suffix_come_off("/notes/"@, rest, p);
    if rest.len() > 0 {
        assert(p.last() == rest.last());
    } else {
        assert(p.last() == "/notes/"@.last());
    }
}

/// A request that was answered as unchanged, one that was sent in full although
/// it named a tag and one that named none are labelled apart.
pub proof fn outcomes_are_labelled_apart(status: u16, present: bool)
    ensures
        conditional_outcome(status, present) == "not_modified"@ <==> status == 304,
        conditional_outcome(status, present) == "revalidated"@ <==> status != 304 && present,
        conditional_outcome(status, present) == "unconditional"@ <==> status != 304 && !present,
{
    reveal_strlit("not_modified");
    reveal_strlit("revalidated");
    reveal_strlit("unconditional");
    assert("not_modified"@.len() == 12 && "revalidated"@.len() == 11 && "unconditional"@.len()
        == 13);
}

/// A trace header is found under its own name alone.
pub proof fn trace_headers_stand_by_name(h: TraceHeaders, key: Seq<char>)
    ensures
        trace_header(h, "traceparent"@) == text::opt_view(h.traceparent),
        trace_header(h, "tracestate"@) == text::opt_view(h.tracestate),
        key != "traceparent"@ && key != "tracestate"@ ==> trace_header(h, key) is None,
{
    reveal_strlit("traceparent");
    reveal_strlit("tracestate");
    assert("traceparent"@.len() != "tracestate"@.len());
}

/// The endpoint that is told is one that is set, the general one first.
pub proof fn told_endpoint_is_one_that_is_set(env: EnvData)
    ensures
        has_endpoint(env) <==> env.endpoint is Some || env.metrics_endpoint is Some
            || env.traces_endpoint is Some,
        env.endpoint matches Some(s) ==> shown_endpoint(env) == s,
        has_endpoint(env) ==> Some(shown_endpoint(env)) == env.endpoint || Some(shown_endpoint(env))
            == env.metrics_endpoint || Some(shown_endpoint(env)) == env.traces_endpoint,
{
}

/// Each removed option is refused under its own name, and with what takes its
/// place.
pub proof fn removed_options_are_named(raw: RawTelemetryArgs)
    ensures
        raw.uptrace_dsn is Some ==> (removed_option(raw) matches Some(
            TelemetryErrorData::Removed { option, replacement },
        ) && text::has_prefix(option, "--uptrace-dsn"@) && text::has_prefix(
            replacement,
            "OTEL_EXPORTER_OTLP_ENDPOINT"@,
        )),
        raw.uptrace_dsn is None && raw.otlp_endpoint is Some ==> (removed_option(raw) matches Some(
            TelemetryErrorData::Removed { option, replacement },
        ) && text::has_prefix(option, "--otlp-endpoint"@) && replacement
            == "OTEL_EXPORTER_OTLP_ENDPOINT"@),
        raw.uptrace_dsn is None && raw.otlp_endpoint is None && raw.otlp_headers@.len() > 0 ==> (
        removed_option(raw) matches Some(TelemetryErrorData::Removed { option, replacement })
            && text::has_prefix(option, "--otlp-header"@) && replacement
            == "OTEL_EXPORTER_OTLP_HEADERS"@),
{
    reveal_strlit("--uptrace-dsn / ANWESEN_UPTRACE_DSN");
    reveal_strlit("--uptrace-dsn");
    assert("--uptrace-dsn / ANWESEN_UPTRACE_DSN"@.take(13) =~= "--uptrace-dsn"@);
    reveal_strlit("--otlp-endpoint / ANWESEN_OTLP_ENDPOINT");
    reveal_strlit("--otlp-endpoint");
    assert("--otlp-endpoint / ANWESEN_OTLP_ENDPOINT"@.take(15) =~= "--otlp-endpoint"@);
    reveal_strlit("--otlp-header / ANWESEN_OTLP_HEADERS");
    reveal_strlit("--otlp-header");
    assert("--otlp-header / ANWESEN_OTLP_HEADERS"@.take(13) =~= "--otlp-header"@);
    reveal_strlit(
        "OTEL_EXPORTER_OTLP_ENDPOINT=https://api.uptrace.dev plus OTEL_EXPORTER_OTLP_HEADERS=uptrace-dsn=<the DSN, verbatim>",
    );
    reveal_strlit("OTEL_EXPORTER_OTLP_ENDPOINT");
    assert("OTEL_EXPORTER_OTLP_ENDPOINT=https://api.uptrace.dev plus OTEL_EXPORTER_OTLP_HEADERS=uptrace-dsn=<the DSN, verbatim>"@.take(
        27,
    ) =~= "OTEL_EXPORTER_OTLP_ENDPOINT"@);
}

/// A request is recorded as a span if it was answered with a server error, if
/// it took as long as a slow one or longer, and in no other case.
pub proof fn spans_are_of_slow_and_failed_requests(
    duration: Duration,
    slow_request: Duration,
    status: u16,
    r: bool,
)
    requires
        call_ensures(should_span, (duration, slow_request, status), r),
    ensures
        500 <= status ==> r,
        slow_request.nanos <= duration.nanos ==> r,
        status < 500 && duration.nanos < slow_request.nanos ==> !r,
{
}

/// A second is a thousand milliseconds, and a millisecond a million
/// nanoseconds.
pub proof fn lengths_of_time_add_up(secs: u64, ms: u64, a: Duration, b: Duration)
    requires
        call_ensures(Duration::from_secs, (secs,), a),
        call_ensures(Duration::from_millis, (ms,), b),
        ms == secs * 1000,
    ensures
        a == b,
        ms == 0 ==> b.nanos == 0,
        ms == 1000 ==> b.nanos == 1_000_000_000,
{
}

/// Telemetry that is on has the threshold that was asked for, in milliseconds,
/// and it is on exactly if an endpoint is set and nothing is refused.
pub proof fn telemetry_is_on_with_an_endpoint(
    raw: &RawTelemetryArgs,
    env: OtelEnv,
    r: Result<Option<TelemetryConfig>, TelemetryError>,
)
    requires
        call_ensures(TelemetryConfig::resolve, (raw, env), r),
    ensures
        (r matches Ok(Some(_))) <==> settings_refused(*raw, env@) is None && (env.endpoint is Some
            || env.metrics_endpoint is Some || env.traces_endpoint is Some),
        r matches Ok(Some(c)) ==> c.slow_request.nanos == raw.slow_request_ms * 1_000_000 && c.env@
            == env@,
        r is Err <==> settings_refused(*raw, env@) is Some,
{
}

/// The environment wins over the default attributes: a key that it sets is not
/// set again, and one that it does not set is.
pub proof fn defaults_yield_to_the_environment(
    name: Option<&str>,
    attrs: Option<&str>,
    version: &str,
    r: Vec<Attribute>,
)
    requires
        call_ensures(default_resource_attrs, (name, attrs, version), r),
    ensures
        (name matches Some(s) && text::trimmed(s@).len() > 0) ==> forall|i: int|
            0 <= i < r@.len() ==> (#[trigger] r@[i]).key@ != "service.name"@,
        (attrs matches Some(s) && sets_key(s@, "service.name"@)) ==> forall|i: int|
            0 <= i < r@.len() ==> (#[trigger] r@[i]).key@ != "service.name"@,
        (attrs matches Some(s) && sets_key(s@, "service.version"@)) ==> forall|i: int|
            0 <= i < r@.len() ==> (#[trigger] r@[i]).key@ != "service.version"@,
        name is None && attrs is None ==> r@.len() == 2 && r@[0].key@ == "service.name"@
            && r@[0].value@ == "anwesen"@ && r@[1].key@ == "service.version"@ && r@[1].value@
            == version@,
{
    reveal_strlit("service.name");
    reveal_strlit("service.version");
    assert("service.name"@.len() != "service.version"@.len());
    let v = attributes_view(r@);
    assert forall|i: int| 0 <= i < r@.len() implies #[trigger] v[i] == (
        r@[i].key@,
        r@[i].value@,
    ) by {}
    assert forall|i: int| 0 <= i < r@.len() implies (#[trigger] r@[i]).key@ == v[i].0 by {}
    if name is None && attrs is None {
        let none = Seq::<char>::empty();
        assert(!sets_key(none, "service.name"@)) by {
            nothing_is_set_by_nothing("service.name"@);
        }
        assert(!sets_key(none, "service.version"@)) by {
            nothing_is_set_by_nothing("service.version"@);
        }
        assert(v.len() == 2 && r@.len() == v.len());
        assert(v[0] == ("service.name"@, "anwesen"@));
        assert(v[1] == ("service.version"@, version@));
    }
}

proof fn nothing_is_set_by_nothing(key: Seq<char>)
    ensures
        !sets_key(seq![], key),
{
    let none = Seq::<char>::empty();
    text::before_bounds(none, ',');
    text::before_bounds(none, '=');
    assert(text::split(none, ',') =~= seq![none]);
    assert(text::cut(none, '=') is None);
}

/// The name of a span starts with the method and ends with the route.
pub proof fn span_names_say_method_and_route(method: &str, route: &str, r: String)
    requires
        call_ensures(span_name, (method, route), r),
    ensures
        r@.len() == method@.len() + 1 + route@.len(),
        text::has_prefix(r@, method@),
        text::has_suffix(r@, route@),
        r@[method@.len() as int] == ' ',
{
    reveal_strlit(" ");
    assert(r@.take(method@.len() as int) =~= method@);
    assert(r@.skip(r@.len() - route@.len()) =~= route@);
}

}
