//! Frontmatter queries: their grammar, and their evaluation over the notes.
//!
//! A query string is a list of `key=value` pairs. A key names a frontmatter
//! field, with an operator suffix (`__in`, `__all`, `__not`, `__exists`,
//! `__regex`, `__prefix`, `__gt`, `__gte`, `__lt`, `__lte`) or without one;
//! a key under `__anw-` sets a control parameter. The predicates of a query
//! all have to hold.

use vstd::prelude::*;

use crate::dates;
use crate::dates::{Date, DateTime, Instant};
use crate::fragments;
use crate::fragments::{Fragment, FragmentData};
use crate::json;
use crate::json::Json;
use crate::lists;
use crate::numbers;
use crate::outside;
use crate::percent;
use crate::sorted;
use crate::store;
use crate::store::NoteStore;
use crate::text;
use crate::text::Order;
use crate::value;
use crate::value::{Data, Frontmatter, Value};
use crate::vault::{Note, NoteData};

verus! {

/// Why a query string was refused.
#[derive(Debug, PartialEq, Eq)]
pub enum QueryError {
    UnknownOperator(String),
    BadValue(String),
    BadControl(String),
}

/// What a [`QueryError`] says.
pub enum QueryErrorData {
    UnknownOperator(Seq<char>),
    BadValue(Seq<char>),
    BadControl(Seq<char>),
}

impl View for QueryError {
    type V = QueryErrorData;

    open spec fn view(&self) -> QueryErrorData {
        match self {
            QueryError::UnknownOperator(s) => QueryErrorData::UnknownOperator(s@),
            QueryError::BadValue(s) => QueryErrorData::BadValue(s@),
            QueryError::BadControl(s) => QueryErrorData::BadControl(s@),
        }
    }
}

/// How a query error reads.
pub open spec fn error_text(e: QueryErrorData) -> Seq<char> {
    match e {
        QueryErrorData::UnknownOperator(s) => "unknown operator: "@ + s,
        QueryErrorData::BadValue(s) => "bad value: "@ + s,
        QueryErrorData::BadControl(s) => "bad control parameter: "@ + s,
    }
}

impl QueryError {
    /// How the error reads.
    pub fn message(&self) -> (r: String)
        ensures
            r@ == error_text(self@),
    {
        match self {
            QueryError::UnknownOperator(s) => text::concat("unknown operator: ", s.as_str()),
            QueryError::BadValue(s) => text::concat("bad value: ", s.as_str()),
            QueryError::BadControl(s) => text::concat("bad control parameter: ", s.as_str()),
        }
    }
}

/// How a predicate compares the field with its value.
#[derive(Debug, Clone, Copy, PartialEq, Eq, Structural)]
pub enum Operator {
    /// Equality; where the field is a list, the list contains the value.
    Eq,
    /// One of the listed values matches.
    In,
    /// The field is a list that contains every listed value.
    All,
    /// Not equal; holds of a missing field too.
    Not,
    /// The key is there, or is not.
    Exists,
    /// A regular expression is found in a text.
    Regex,
    /// A text starts with the value.
    Prefix,
    Gt,
    Gte,
    Lt,
    Lte,
}

/// One predicate on a frontmatter field.
#[derive(Debug)]
pub struct Predicate {
    pub field: String,
    pub op: Operator,
    pub value: String,
    /// The bits of the double that `value` reads as. Set by
    /// [`ParsedQuery::read_numbers`].
    pub number: Option<u64>,
}

/// What a [`Predicate`] says.
#[verifier::ext_equal]
pub struct PredicateData {
    pub field: Seq<char>,
    pub op: Operator,
    pub value: Seq<char>,
    pub number: Option<u64>,
}

impl View for Predicate {
    type V = PredicateData;

    open spec fn view(&self) -> PredicateData {
        PredicateData {
            field: self.field@,
            op: self.op,
            value: self.value@,
            number: self.number,
        }
    }
}

/// The key that merged fragments are ordered by, and the direction.
#[derive(Debug)]
pub struct OrderSpec {
    pub key: String,
    pub desc: bool,
}

/// What an [`OrderSpec`] says.
#[verifier::ext_equal]
pub struct OrderData {
    pub key: Seq<char>,
    pub desc: bool,
}

impl View for OrderSpec {
    type V = OrderData;

    open spec fn view(&self) -> OrderData {
        OrderData { key: self.key@, desc: self.desc }
    }
}

/// A query string, taken apart.
#[derive(Debug)]
pub struct ParsedQuery {
    pub predicates: Vec<Predicate>,
    /// Whether notes in subdirectories match; if not, only direct children of
    /// the path do.
    pub recursive: bool,
    pub path_prefix: Option<String>,
    pub limit: Option<usize>,
    /// The order of merged fragments; by path if there is none.
    pub order: Option<OrderSpec>,
    /// The key that all merged notes must share one value of.
    pub kind_key: Option<String>,
}

/// What a [`ParsedQuery`] says.
#[verifier::ext_equal]
pub struct QueryData {
    pub predicates: Seq<PredicateData>,
    pub recursive: bool,
    pub path_prefix: Option<Seq<char>>,
    pub limit: Option<usize>,
    pub order: Option<OrderData>,
    pub kind_key: Option<Seq<char>>,
}

/// What a list of predicates says.
pub open spec fn predicates_data(v: Seq<Predicate>) -> Seq<PredicateData> {
    v.map_values(|p: Predicate| p@)
}

impl View for ParsedQuery {
    type V = QueryData;

    open spec fn view(&self) -> QueryData {
        QueryData {
            predicates: predicates_data(self.predicates@),
            recursive: self.recursive,
            path_prefix: text::opt_view(self.path_prefix),
            limit: self.limit,
            order: match self.order {
                Some(o) => Some(o@),
                None => None,
            },
            kind_key: text::opt_view(self.kind_key),
        }
    }
}

/// The query that matches every note.
pub open spec fn match_all() -> QueryData {
    QueryData {
        predicates: seq![],
        recursive: true,
        path_prefix: None,
        limit: None,
        order: None,
        kind_key: None,
    }
}

impl ParsedQuery {
    /// The query that matches every note.
    pub fn new() -> (r: Self)
        ensures
            r@ == match_all(),
    {
        let r = ParsedQuery {
            predicates: Vec::new(),
            recursive: true,
            path_prefix: None,
            limit: None,
            order: None,
            kind_key: None,
        };
        assert(r@ =~= match_all());
        r
    }
}

/// Where the last `__` of a key starts, at or before `from`.
pub open spec fn last_double_underscore(key: Seq<char>, from: int) -> Option<int>
    decreases from + 1,
{
    if from < 0 {
        None
    } else if from + 2 <= key.len() && key[from] == '_' && key[from + 1] == '_' {
        Some(from)
    } else {
        last_double_underscore(key, from - 1)
    }
}

/// The operator that a suffix names.
pub open spec fn operator_named(suffix: Seq<char>) -> Option<Operator> {
    if suffix == "in"@ {
        Some(Operator::In)
    } else if suffix == "all"@ {
        Some(Operator::All)
    } else if suffix == "not"@ {
        Some(Operator::Not)
    } else if suffix == "exists"@ {
        Some(Operator::Exists)
    } else if suffix == "regex"@ {
        Some(Operator::Regex)
    } else if suffix == "prefix"@ {
        Some(Operator::Prefix)
    } else if suffix == "gt"@ {
        Some(Operator::Gt)
    } else if suffix == "gte"@ {
        Some(Operator::Gte)
    } else if suffix == "lt"@ {
        Some(Operator::Lt)
    } else if suffix == "lte"@ {
        Some(Operator::Lte)
    } else {
        None
    }
}

/// The field and the operator in a key: what stands before and after its last
/// `__`, or the whole key and equality. A suffix that names no operator is an
/// error.
pub open spec fn field_and_operator(key: Seq<char>) -> Result<(Seq<char>, Operator), Seq<char>> {
    match last_double_underscore(key, key.len() as int) {
        Some(i) => match operator_named(key.skip(i + 2)) {
            Some(op) => Ok((key.take(i), op)),
            None => Err(key.skip(i + 2)),
        },
        None => Ok((key, Operator::Eq)),
    }
}

fn operator_of(suffix: &str) -> (r: Option<Operator>)
    ensures
        r == operator_named(suffix@),
{
    if text::same(suffix, "in") {
        Some(Operator::In)
    } else if text::same(suffix, "all") {
        Some(Operator::All)
    } else if text::same(suffix, "not") {
        Some(Operator::Not)
    } else if text::same(suffix, "exists") {
        Some(Operator::Exists)
    } else if text::same(suffix, "regex") {
        Some(Operator::Regex)
    } else if text::same(suffix, "prefix") {
        Some(Operator::Prefix)
    } else if text::same(suffix, "gt") {
        Some(Operator::Gt)
    } else if text::same(suffix, "gte") {
        Some(Operator::Gte)
    } else if text::same(suffix, "lt") {
        Some(Operator::Lt)
    } else if text::same(suffix, "lte") {
        Some(Operator::Lte)
    } else {
        None
    }
}

/// Takes a key apart into its field and its operator.
pub fn split_operator(key: &str) -> (r: Result<(String, Operator), QueryError>)
    ensures
        match field_and_operator(key@) {
            Ok((field, op)) => r matches Ok(p) && p.0@ == field && p.1 == op,
            Err(suffix) => r matches Err(e) && e@ == QueryErrorData::UnknownOperator(suffix),
        },
{
    let x = text::chars_of(key);
    let n: usize = x.len();
    proof {
        assert(last_double_underscore(key@, n as int) == last_double_underscore(key@, n - 1));
    }
    let mut i: usize = n;
    while i > 0
        invariant
            i <= n == x@.len(),
            x@ == key@,
            last_double_underscore(key@, n as int) == last_double_underscore(key@, i - 1),
        decreases i,
    {
        let at: usize = i - 1;
        if n - at >= 2 && x[at] == '_' && x[at + 1] == '_' {
            let suffix = text::string_of(&x, at + 2, n);
            assert(suffix@ =~= key@.skip(at + 2));
            return match operator_of(suffix.as_str()) {
                Some(op) => {
                    let field = text::string_of(&x, 0, at);
                    assert(field@ =~= key@.take(at as int));
                    Ok((field, op))
                },
                None => Err(QueryError::UnknownOperator(suffix)),
            };
        }
        i -= 1;
    }
    Ok((text::copy_of(key), Operator::Eq))
}

/// The order that a control value sets: a key, and `:asc` or `:desc` after it
/// or neither. An empty key is an error.
pub open spec fn order_set(v: Seq<char>) -> Result<OrderData, QueryErrorData> {
    let (key, desc) = match text::before_suffix(v, ":desc"@) {
        Some(k) => (k, true),
        None => match text::before_suffix(v, ":asc"@) {
            Some(k) => (k, false),
            None => (v, false),
        },
    };
    if key.len() == 0 {
        Err(QueryErrorData::BadControl("order="@ + v))
    } else {
        Ok(OrderData { key, desc })
    }
}

/// Reads the value of the order parameter.
pub fn parse_order(v: &str) -> (r: Result<OrderSpec, QueryError>)
    ensures
        match order_set(v@) {
            Ok(o) => r matches Ok(spec) && spec@ == o,
            Err(e) => r matches Err(err) && err@ == e,
        },
{
    let (key, desc) = match text::strip_suffix(v, ":desc") {
        Some(k) => (k, true),
        None => match text::strip_suffix(v, ":asc") {
            Some(k) => (k, false),
            None => (text::copy_of(v), false),
        },
    };
    if key.as_str().is_empty() {
        return Err(QueryError::BadControl(text::concat("order=", v)));
    }
    Ok(OrderSpec { key, desc })
}

/// The query after a control parameter is set.
pub open spec fn controlled(q: QueryData, name: Seq<char>, v: Seq<char>) -> Result<
    QueryData,
    QueryErrorData,
> {
    if name == "recursive"@ {
        match numbers::bool_value(v) {
            Some(b) => Ok(QueryData { recursive: b, ..q }),
            None => Err(QueryErrorData::BadControl("recursive="@ + v)),
        }
    } else if name == "path"@ {
        Ok(QueryData { path_prefix: Some(text::without_leading(v, '/')), ..q })
    } else if name == "limit"@ {
        match numbers::unsigned_value(v, usize::MAX as nat) {
            Some(n) => Ok(QueryData { limit: Some(n as usize), ..q }),
            None => Err(QueryErrorData::BadControl("limit="@ + v)),
        }
    } else if name == "order"@ {
        match order_set(v) {
            Ok(o) => Ok(QueryData { order: Some(o), ..q }),
            Err(e) => Err(e),
        }
    } else if name == "kind"@ {
        if v.len() == 0 {
            Err(QueryErrorData::BadControl("kind: empty key"@))
        } else {
            Ok(QueryData { kind_key: Some(v), ..q })
        }
    } else {
        Err(QueryErrorData::BadControl(name))
    }
}

/// Sets a control parameter; a query that was refused keeps what it had.
pub fn apply_control(q: &mut ParsedQuery, name: &str, v: &str) -> (r: Result<(), QueryError>)
    ensures
        match controlled(old(q)@, name@, v@) {
            Ok(next) => r is Ok && final(q)@ == next,
            Err(e) => (r matches Err(err) && err@ == e) && final(q)@ == old(q)@,
        },
{
    if text::same(name, "recursive") {
        match numbers::parse_bool(v) {
            Some(b) => {
                q.recursive = b;
            },
            None => {
                return Err(QueryError::BadControl(text::concat("recursive=", v)));
            },
        }
    } else if text::same(name, "path") {
        q.path_prefix = Some(text::trim_leading(v, '/'));
    } else if text::same(name, "limit") {
        match numbers::parse_usize(v) {
            Some(n) => {
                q.limit = Some(n);
            },
            None => {
                return Err(QueryError::BadControl(text::concat("limit=", v)));
            },
        }
    } else if text::same(name, "order") {
        match parse_order(v) {
            Ok(o) => {
                q.order = Some(o);
            },
            Err(e) => {
                return Err(e);
            },
        }
    } else if text::same(name, "kind") {
        if v.is_empty() {
            return Err(QueryError::BadControl(text::copy_of("kind: empty key")));
        }
        q.kind_key = Some(text::copy_of(v));
    } else {
        return Err(QueryError::BadControl(text::copy_of(name)));
    }
    Ok(())
}

/// Why the value of a predicate is refused: a regular expression that does not
/// compile, given the text of its error, or a presence test that is neither
/// true nor false.
pub open spec fn value_refused(
    key: Seq<char>,
    op: Operator,
    v: Seq<char>,
    failure: Option<Seq<char>>,
) -> Option<QueryErrorData> {
    if op == Operator::Regex {
        match failure {
            Some(e) => Some(QueryErrorData::BadValue(key + ": invalid regex: "@ + e)),
            None => None,
        }
    } else if op == Operator::Exists && numbers::bool_value(v) is None {
        Some(QueryErrorData::BadValue(key + "="@ + v))
    } else {
        None
    }
}

/// Checks the value of a predicate, given the error that its value has as a
/// regular expression.
pub fn check_value(key: &str, op: Operator, v: &str, failure: Option<String>) -> (r: Option<
    QueryError,
>)
    ensures
        match value_refused(key@, op, v@, text::opt_view(failure)) {
            Some(e) => r matches Some(err) && err@ == e,
            None => r is None,
        },
{
    match op {
        Operator::Regex => match failure {
            Some(e) => {
                let mut m = text::concat(key, ": invalid regex: ");
                m.append(e.as_str());
                Some(QueryError::BadValue(m))
            },
            None => None,
        },
        Operator::Exists => {
            if numbers::parse_bool(v).is_none() {
                let mut m = text::concat(key, "=");
                m.append(v);
                Some(QueryError::BadValue(m))
            } else {
                None
            }
        },
        _ => None,
    }
}

/// The query after one `key=value` pair of its string; an empty pair changes
/// nothing.
pub open spec fn pair_applied(q: QueryData, pair: Seq<char>) -> Result<QueryData, QueryErrorData> {
    if pair.len() == 0 {
        Ok(q)
    } else {
        let (k, v) = match text::cut(pair, '=') {
            Some(kv) => kv,
            None => (pair, seq![]),
        };
        match percent::decoded(k, true) {
            None => Err(QueryErrorData::BadValue(k)),
            Some(key) => match percent::decoded(v, true) {
                None => Err(QueryErrorData::BadValue(v)),
                Some(value) => match text::after_prefix(key, "__anw-"@) {
                    Some(name) => controlled(q, name, value),
                    None => match field_and_operator(key) {
                        Err(suffix) => Err(QueryErrorData::UnknownOperator(suffix)),
                        Ok((field, op)) => match value_refused(
                            key,
                            op,
                            value,
                            outside::regex_failure(value),
                        ) {
                            Some(e) => Err(e),
                            None => Ok(
                                QueryData {
                                    predicates: q.predicates.push(
                                        PredicateData { field, op, value, number: None },
                                    ),
                                    ..q
                                },
                            ),
                        },
                    },
                },
            },
        }
    }
}

/// The query after the pairs of its string, up to the first that is refused.
pub open spec fn pairs_applied(pairs: Seq<Seq<char>>) -> Result<QueryData, QueryErrorData>
    decreases pairs.len(),
{
    if pairs.len() == 0 {
        Ok(match_all())
    } else {
        match pairs_applied(pairs.drop_last()) {
            Ok(q) => pair_applied(q, pairs.last()),
            Err(e) => Err(e),
        }
    }
}

/// What a query string says.
pub open spec fn parsed(raw: Seq<char>) -> Result<QueryData, QueryErrorData> {
    pairs_applied(text::split(raw, '&'))
}

/// Whether a parse came out as `expected` says.
pub open spec fn parse_is(
    r: Result<ParsedQuery, QueryError>,
    expected: Result<QueryData, QueryErrorData>,
) -> bool {
    match (r, expected) {
        (Ok(q), Ok(d)) => q@ == d,
        (Err(e), Err(d)) => e@ == d,
        _ => false,
    }
}

fn apply_pair(q: &mut ParsedQuery, pair: &str) -> (r: Result<(), QueryError>)
    ensures
        match pair_applied(old(q)@, pair@) {
            Ok(next) => r is Ok && final(q)@ == next,
            Err(e) => r matches Err(err) && err@ == e,
        },
{
    if pair.is_empty() {
        return Ok(());
    }
    let (k, v) = match text::split_once(pair, '=') {
        Some(kv) => kv,
        None => (text::copy_of(pair), String::new()),
    };
    proof {
        if text::cut(pair@, '=') is None {
            assert(v@ =~= seq![]);
        }
    }
    let key = match percent::percent_decode(k.as_str(), true) {
        Some(s) => s,
        None => {
            return Err(QueryError::BadValue(k));
        },
    };
    let value = match percent::percent_decode(v.as_str(), true) {
        Some(s) => s,
        None => {
            return Err(QueryError::BadValue(v));
        },
    };
    match text::strip_prefix(key.as_str(), "__anw-") {
        Some(name) => {
            return apply_control(q, name.as_str(), value.as_str());
        },
        None => {},
    }
    let (field, op) = match split_operator(key.as_str()) {
        Ok(p) => p,
        Err(e) => {
            return Err(e);
        },
    };
    let failure = match op {
        Operator::Regex => outside::regex_error(value.as_str()),
        _ => None,
    };
    match check_value(key.as_str(), op, value.as_str(), failure) {
        Some(e) => {
            return Err(e);
        },
        None => {},
    }
    let ghost before = q.predicates@;
    q.predicates.push(Predicate { field, op, value, number: None });
    proof {
        assert(predicates_data(q.predicates@) =~= predicates_data(before).push(
            PredicateData { field: field@, op, value: value@, number: None },
        ));
    }
    Ok(())
}

/// Parses a query string (`a=b&c__in=x,y&__anw-limit=5`). An operator that is
/// not known, a control parameter that is not known or cannot be read, a value
/// that cannot be decoded, a regular expression that does not compile and a
/// presence test that is neither true nor false are errors; the first one
/// counts. No value is read as a double: with such a query a range operator
/// finds no double, and compares an integer with integers only. To compare
/// with doubles too, parse with [`parse_reading`].
pub fn parse(raw: &str) -> (r: Result<ParsedQuery, QueryError>)
    ensures
        parse_is(r, parsed(raw@)),
{
    let mut q = ParsedQuery::new();
    let pairs = text::split_at_each(raw, '&');
    let ghost all = text::views(pairs@);
    let mut i: usize = 0;
    assert(all.take(0) =~= seq![]);
    while i < pairs.len()
        invariant
            i <= pairs@.len(),
            all == text::views(pairs@),
            all == text::split(raw@, '&'),
            pairs_applied(all.take(i as int)) == Ok::<QueryData, QueryErrorData>(q@),
        decreases pairs@.len() - i,
    {
        let ghost next = all.take(i + 1);
        proof {
            assert(next.drop_last() =~= all.take(i as int));
            assert(next.last() == pairs@[i as int]@);
        }
        match apply_pair(&mut q, pairs[i].as_str()) {
            Ok(()) => {},
            Err(e) => {
                proof {
                    refused_stays(all, i + 1, e@);
                    assert(all.take(all.len() as int) =~= all);
                }
                return Err(e);
            },
        }
        i += 1;
    }
    assert(all.take(i as int) =~= all);
    Ok(q)
}

proof fn refused_stays(pairs: Seq<Seq<char>>, i: int, e: QueryErrorData)
    requires
        0 <= i <= pairs.len(),
        pairs_applied(pairs.take(i)) == Err::<QueryData, QueryErrorData>(e),
    ensures
        pairs_applied(pairs.take(pairs.len() as int)) == Err::<QueryData, QueryErrorData>(e),
    decreases pairs.len() - i,
{
    if i < pairs.len() {
        assert(pairs.take(i + 1).drop_last() =~= pairs.take(i));
        refused_stays(pairs, i + 1, e);
    }
}

/// Whether `q` is `p` with the double that each value reads as filled in by
/// `read`.
pub open spec fn numbers_filled<F: Fn(&str) -> Option<u64>>(
    q: QueryData,
    p: QueryData,
    read: F,
) -> bool {
    &&& q == QueryData { predicates: q.predicates, ..p }
    &&& q.predicates.len() == p.predicates.len()
    &&& forall|i: int|
        0 <= i < q.predicates.len() ==> number_filled(
            #[trigger] q.predicates[i],
            p.predicates[i],
            read,
        )
}

/// Whether `q` is `p` with the double that its value reads as filled in.
pub open spec fn number_filled<F: Fn(&str) -> Option<u64>>(
    q: PredicateData,
    p: PredicateData,
    read: F,
) -> bool {
    &&& q == PredicateData { number: q.number, ..p }
    &&& exists|s: &str| s@ == p.value && #[trigger] call_ensures(read, (s,), q.number)
}

impl ParsedQuery {
    /// The query with the double that each value reads as filled in by `read`,
    /// as bits. Range operators use it where a field is a number and the value
    /// is no integer.
    pub fn read_numbers<F>(self, read: F) -> (r: ParsedQuery) where F: Fn(&str) -> Option<u64>
        requires
            forall|s: &str| #[trigger] call_requires(read, (s,)),
        ensures
            numbers_filled(r@, self@, read),
    {
        let mut rest = lists::reversed(self.predicates);
        let ghost all = self.predicates@;
        let mut done: Vec<Predicate> = Vec::new();
        while rest.len() > 0
            invariant
                done@.len() + rest@.len() == all.len(),
                forall|s: &str| #[trigger] call_requires(read, (s,)),
                forall|j: int| 0 <= j < rest@.len() ==> rest@[j] == all[all.len() - 1 - j],
                forall|i: int|
                    0 <= i < done@.len() ==> number_filled((#[trigger] done@[i])@, all[i]@, read),
            decreases rest@.len(),
        {
            match rest.pop() {
                Some(p) => {
                    let number = read(p.value.as_str());
                    let filled = Predicate { field: p.field, op: p.op, value: p.value, number };
                    assert(number_filled(filled@, p@, read));
                    done.push(filled);
                },
                None => {},
            }
        }
        ParsedQuery {
            predicates: done,
            recursive: self.recursive,
            path_prefix: self.path_prefix,
            limit: self.limit,
            order: self.order,
            kind_key: self.kind_key,
        }
    }
}

/// Parses a query string as [`parse`] does, and has the double that each value
/// reads as filled in by `read`, as bits.
pub fn parse_reading<F>(raw: &str, read: F) -> (r: Result<ParsedQuery, QueryError>) where
    F: Fn(&str) -> Option<u64>,

    requires
        forall|s: &str| #[trigger] call_requires(read, (s,)),
    ensures
        match parsed(raw@) {
            Ok(p) => r matches Ok(q) && numbers_filled(q@, p, read),
            Err(e) => r matches Err(x) && x@ == e,
        },
{
    match parse(raw) {
        Ok(q) => Ok(q.read_numbers(read)),
        Err(e) => Err(e),
    }
}

/// The value that a list of keys leads to, one inside the other.
pub open spec fn reached(fm: Map<Seq<char>, Data>, keys: Seq<Seq<char>>) -> Option<Data>
    decreases keys.len(),
{
    if keys.len() == 0 || !fm.contains_key(keys[0]) {
        None
    } else if keys.len() == 1 {
        Some(fm[keys[0]])
    } else {
        match fm[keys[0]] {
            Data::Table(inner) => reached(inner, keys.skip(1)),
            _ => None,
        }
    }
}

/// The value that a dotted key (`author.name`) leads to.
pub open spec fn looked_up(fm: Map<Seq<char>, Data>, key: Seq<char>) -> Option<Data> {
    reached(fm, text::split(key, '.'))
}

fn reach<'a>(fm: &'a Frontmatter, keys: &Vec<String>, i: usize) -> (r: Option<&'a Value>)
    requires
        i < keys@.len(),
    ensures
        match reached(value::table_data(fm@), text::views(keys@).skip(i as int)) {
            Some(d) => r matches Some(v) && v@ == d,
            None => r is None,
        },
    decreases keys@.len() - i,
{
    let ghost rest = text::views(keys@).skip(i as int);
    proof {
        assert(rest[0] == keys@[i as int]@);
        assert(rest.skip(1) =~= text::views(keys@).skip(i + 1));
    }
    match fm.get(keys[i].as_str()) {
        None => None,
        Some(v) => {
            if keys.len() - i == 1 {
                Some(v)
            } else {
                match v {
                    Value::Mapping(inner) => {
                        proof {
                            value::mapping_data(*inner);
                        }
                        reach(inner, keys, i + 1)
                    },
                    Value::Sequence(items) => {
                        proof {
                            value::sequence_data(*items);
                        }
                        None
                    },
                    _ => None,
                }
            }
        },
    }
}

/// Follows a dotted key into the frontmatter. None if a key on the way is
/// missing or leads to something that is no mapping.
pub fn lookup_dotted<'a>(fm: &'a Frontmatter, key: &str) -> (r: Option<&'a Value>)
    ensures
        match looked_up(value::table_data(fm@), key@) {
            Some(d) => r matches Some(v) && v@ == d,
            None => r is None,
        },
{
    let keys = text::split_at_each(key, '.');
    assert(text::views(keys@).skip(0) =~= text::views(keys@));
    reach(fm, &keys, 0)
}

/// Whether a value is neither a list nor a table.
pub open spec fn is_scalar(d: Data) -> bool {
    !(d is List) && !(d is Table)
}

/// Whether a scalar reads as `needle`.
pub open spec fn scalar_equals(d: Data, needle: Seq<char>) -> bool {
    is_scalar(d) && value::canonical_text(d) == needle
}

/// Whether a value equals `needle`: a scalar that reads so, or a list with an
/// item that does.
pub open spec fn equals(d: Data, needle: Seq<char>) -> bool {
    match d {
        Data::List(items) => exists|i: int|
            0 <= i < items.len() && scalar_equals(#[trigger] items[i], needle),
        _ => scalar_equals(d, needle),
    }
}

/// Whether a regular expression is found in a value: a scalar, in the text that
/// equality compares it by. It is found in no list and in no table.
pub open spec fn scalar_found(d: Data, pattern: Seq<char>) -> bool {
    is_scalar(d) && outside::regex_found(pattern, value::canonical_text(d))
}

fn matches_regex(v: &Value, pattern: &str) -> (r: bool)
    ensures
        r == scalar_found(v@, pattern@),
{
    match v {
        Value::Sequence(items) => {
            proof {
                value::sequence_data(*items);
            }
            false
        },
        Value::Mapping(m) => {
            proof {
                value::mapping_data(*m);
            }
            false
        },
        _ => outside::regex_is_match(pattern, v.canonical_string().as_str()),
    }
}

fn matches_scalar_eq(v: &Value, needle: &str) -> (r: bool)
    ensures
        r == scalar_equals(v@, needle@),
{
    match v {
        Value::Sequence(items) => {
            proof {
                value::sequence_data(*items);
            }
            false
        },
        Value::Mapping(m) => {
            proof {
                value::mapping_data(*m);
            }
            false
        },
        _ => text::same(v.canonical_string().as_str(), needle),
    }
}

fn any_scalar_eq(items: &Vec<Value>, needle: &str) -> (r: bool)
    ensures
        r == equals(Data::List(value::list_data(items@)), needle@),
{
    let ghost d = value::list_data(items@);
    let mut i: usize = 0;
    while i < items.len()
        invariant
            i <= items@.len(),
            d == value::list_data(items@),
            forall|j: int| 0 <= j < i ==> !scalar_equals(#[trigger] d[j], needle@),
        decreases items@.len() - i,
    {
        if matches_scalar_eq(&items[i], needle) {
            assert(scalar_equals(Data::List(d)->List_0[i as int], needle@));
            return true;
        }
        i += 1;
    }
    false
}

/// Whether a value equals `needle`: a scalar by its text, a list by one of its
/// items.
pub fn matches_eq(v: &Value, needle: &str) -> (r: bool)
    ensures
        r == equals(v@, needle@),
{
    match v {
        Value::Sequence(items) => {
            proof {
                value::sequence_data(*items);
            }
            any_scalar_eq(items, needle)
        },
        _ => {
            proof {
                match v {
                    Value::Mapping(m) => value::mapping_data(*m),
                    _ => {},
                }
            }
            matches_scalar_eq(v, needle)
        },
    }
}

/// The values that a comma-separated text lists.
pub open spec fn listed(s: Seq<char>) -> Seq<Seq<char>> {
    text::split(s, ',').map_values(|t: Seq<char>| text::trimmed(t))
}

fn comma_list(s: &str) -> (r: Vec<String>)
    ensures
        text::views(r@) == listed(s@),
{
    let parts = text::split_at_each(s, ',');
    let mut out: Vec<String> = Vec::new();
    let mut i: usize = 0;
    while i < parts.len()
        invariant
            i <= parts@.len(),
            out@.len() == i,
            text::views(parts@) == text::split(s@, ','),
            forall|j: int| 0 <= j < i ==> (#[trigger] out@[j])@ == text::trimmed(parts@[j]@),
        decreases parts@.len() - i,
    {
        out.push(text::trim(parts[i].as_str()));
        i += 1;
    }
    proof {
        assert(text::views(parts@).len() == parts@.len());
        assert forall|j: int| 0 <= j < parts@.len() implies text::views(parts@)[j]
            == #[trigger] parts@[j]@ by {}
        assert(text::views(out@) =~= listed(s@));
    }
    out
}

/// Whether an order is what a range operator asks for.
pub open spec fn order_satisfies(o: Order, op: Operator) -> bool {
    match op {
        Operator::Gt => o == Order::Greater,
        Operator::Gte => o != Order::Less,
        Operator::Lt => o == Order::Less,
        Operator::Lte => o != Order::Greater,
        _ => false,
    }
}

fn ord(o: Order, op: Operator) -> (r: bool)
    ensures
        r == order_satisfies(o, op),
{
    match op {
        Operator::Gt => o == Order::Greater,
        Operator::Gte => o != Order::Less,
        Operator::Lt => o == Order::Less,
        Operator::Lte => o != Order::Greater,
        _ => false,
    }
}

/// The double that a value is as a number.
pub open spec fn number_of(d: Data) -> Option<u64> {
    match d {
        Data::Float(f) => Some(f.bits),
        Data::Int(i) => Some(value::int_bits(i)),
        _ => None,
    }
}

/// How a value compares with a range operand, given what the operand reads as:
/// by date if both are dates, then by instant, by integer, by double, by text,
/// whichever comes first. None if none of these fits.
pub open spec fn range_order(
    d: Data,
    needle: Seq<char>,
    date: Option<(i32, u32, u32)>,
    datetime: Option<(i64, u32, i32)>,
    number: Option<u64>,
) -> Option<Order> {
    if d is Date && date is Some {
        Some(dates::date_order((d->Date_0, d->Date_1, d->Date_2), date->0))
    } else if d is DateTime && datetime is Some {
        let t = datetime->0;
        Some(dates::instant_order(d->DateTime_0.at, (t.0, t.1)))
    } else if d is Int && numbers::signed_value(needle, i64::MIN as int, i64::MAX as int) is Some {
        Some(
            text::int_order(
                d->Int_0 as int,
                numbers::signed_value(needle, i64::MIN as int, i64::MAX as int)->0,
            ),
        )
    } else if number_of(d) is Some && number is Some {
        Some(value::float_order(number_of(d)->0, number->0))
    } else if d is Text {
        Some(text::text_order(d->Text_0, needle))
    } else {
        None
    }
}

/// Whether a value lies in the range that an operator and its operand set.
pub open spec fn in_range(
    d: Data,
    needle: Seq<char>,
    date: Option<(i32, u32, u32)>,
    datetime: Option<(i64, u32, i32)>,
    number: Option<u64>,
    op: Operator,
) -> bool {
    match range_order(d, needle, date, datetime, number) {
        Some(o) => order_satisfies(o, op),
        None => false,
    }
}

/// Compares a value with a range operand, given what the operand reads as.
pub fn ordered_with(
    v: &Value,
    needle: &str,
    date: Option<Date>,
    datetime: Option<DateTime>,
    number: Option<u64>,
    op: Operator,
) -> (r: bool)
    ensures
        r == in_range(
            v@,
            needle@,
            match date {
                Some(d) => Some(d@),
                None => None,
            },
            match datetime {
                Some(t) => Some((t@.at.0, t@.at.1, t@.offset)),
                None => None,
            },
            number,
            op,
        ),
{
    match v {
        Value::Date(a) => match date {
            Some(b) => ord(a.compare(&b), op),
            None => false,
        },
        Value::DateTime(a) => match datetime {
            Some(b) => ord(a.instant().compare(&b.instant()), op),
            None => false,
        },
        Value::Int(a) => match numbers::parse_i64(needle) {
            Some(b) => ord(text::compare_ints(*a, b), op),
            None => match number {
                Some(b) => ord(value::compare_floats(value::float_of_int(*a), b), op),
                None => false,
            },
        },
        Value::Float(a) => match number {
            Some(b) => ord(value::compare_floats(a.bits, b), op),
            None => false,
        },
        Value::String(a) => ord(text::compare(a.as_str(), needle), op),
        Value::Sequence(items) => {
            proof {
                value::sequence_data(*items);
            }
            false
        },
        Value::Mapping(m) => {
            proof {
                value::mapping_data(*m);
            }
            false
        },
        _ => false,
    }
}

/// Compares a value with a range operand, which is read as a date and as a
/// date-time; what it reads as as a double is given.
pub fn ordered_compare(v: &Value, needle: &str, number: Option<u64>, op: Operator) -> (r: bool)
    ensures
        r == in_range(
            v@,
            needle@,
            outside::iso_date(needle@),
            outside::rfc3339(needle@),
            number,
            op,
        ),
{
    ordered_with(
        v,
        needle,
        Date::parse(needle),
        DateTime::parse_from_rfc3339(needle),
        number,
        op,
    )
}

/// Whether a predicate holds of a field, which may be missing.
pub open spec fn predicate_of(p: PredicateData, target: Option<Data>) -> bool {
    match p.op {
        Operator::Exists => target is Some == (p.value == "true"@),
        Operator::Eq => target is Some && equals(target->0, p.value),
        Operator::Not => !(target is Some && equals(target->0, p.value)),
        Operator::In => target is Some && exists|i: int|
            0 <= i < listed(p.value).len() && equals(target->0, #[trigger] listed(p.value)[i]),
        Operator::All => target is Some && target->0 is List && forall|i: int|
            0 <= i < listed(p.value).len() ==> equals(target->0, #[trigger] listed(p.value)[i]),
        Operator::Regex => target is Some && scalar_found(target->0, p.value),
        Operator::Prefix => target is Some && target->0 is Text && text::has_prefix(
            target->0->Text_0,
            p.value,
        ),
        _ => target is Some && in_range(
            target->0,
            p.value,
            outside::iso_date(p.value),
            outside::rfc3339(p.value),
            p.number,
            p.op,
        ),
    }
}

/// Whether a predicate holds of a frontmatter.
pub open spec fn predicate_holds(p: PredicateData, fm: Map<Seq<char>, Data>) -> bool {
    predicate_of(p, looked_up(fm, p.field))
}

/// Whether all predicates hold of a frontmatter.
pub open spec fn all_hold(ps: Seq<PredicateData>, fm: Map<Seq<char>, Data>) -> bool {
    forall|i: int| 0 <= i < ps.len() ==> predicate_holds(#[trigger] ps[i], fm)
}

fn any_eq(v: &Value, needles: &Vec<String>) -> (r: bool)
    ensures
        r == exists|i: int|
            0 <= i < needles@.len() && equals(v@, (#[trigger] text::views(needles@)[i])),
{
    let ghost all = text::views(needles@);
    let mut i: usize = 0;
    while i < needles.len()
        invariant
            i <= needles@.len(),
            all == text::views(needles@),
            forall|j: int| 0 <= j < i ==> !equals(v@, #[trigger] all[j]),
        decreases needles@.len() - i,
    {
        if matches_eq(v, needles[i].as_str()) {
            assert(equals(v@, all[i as int]));
            return true;
        }
        i += 1;
    }
    false
}

fn every_eq(items: &Vec<Value>, needles: &Vec<String>) -> (r: bool)
    ensures
        r == forall|i: int|
            0 <= i < needles@.len() ==> equals(
                Data::List(value::list_data(items@)),
                (#[trigger] text::views(needles@)[i]),
            ),
{
    let ghost all = text::views(needles@);
    let ghost d = Data::List(value::list_data(items@));
    let mut i: usize = 0;
    while i < needles.len()
        invariant
            i <= needles@.len(),
            all == text::views(needles@),
            d == Data::List(value::list_data(items@)),
            forall|j: int| 0 <= j < i ==> equals(d, #[trigger] all[j]),
        decreases needles@.len() - i,
    {
        if !any_scalar_eq(items, needles[i].as_str()) {
            assert(!equals(d, all[i as int]));
            return false;
        }
        i += 1;
    }
    true
}

/// Whether a predicate holds of a frontmatter.
pub fn predicate_match(p: &Predicate, fm: &Frontmatter) -> (r: bool)
    ensures
        r == predicate_holds(p@, value::table_data(fm@)),
{
    let target = lookup_dotted(fm, p.field.as_str());
    match p.op {
        Operator::Exists => target.is_some() == text::same(p.value.as_str(), "true"),
        Operator::Eq => match target {
            Some(v) => matches_eq(v, p.value.as_str()),
            None => false,
        },
        Operator::Not => match target {
            Some(v) => !matches_eq(v, p.value.as_str()),
            None => true,
        },
        Operator::In => {
            let needles = comma_list(p.value.as_str());
            match target {
                Some(v) => any_eq(v, &needles),
                None => false,
            }
        },
        Operator::All => {
            let needles = comma_list(p.value.as_str());
            match target {
                Some(v) => match v {
                    Value::Sequence(items) => {
                        proof {
                            value::sequence_data(*items);
                        }
                        every_eq(items, &needles)
                    },
                    Value::Mapping(m) => {
                        proof {
                            value::mapping_data(*m);
                        }
                        false
                    },
                    _ => false,
                },
                None => false,
            }
        },
        Operator::Regex => match target {
            Some(v) => matches_regex(v, p.value.as_str()),
            None => false,
        },
        Operator::Prefix => match target {
            Some(v) => match v {
                Value::String(s) => text::starts_with(s.as_str(), p.value.as_str()),
                _ => not_text(v),
            },
            None => false,
        },
        _ => match target {
            Some(v) => ordered_compare(v, p.value.as_str(), p.number, p.op),
            None => false,
        },
    }
}

fn not_text(v: &Value) -> (r: bool)
    requires
        !(v is String),
    ensures
        !r,
        !(v@ is Text),
{
    false
}

/// Whether all predicates hold of a frontmatter.
pub fn predicates_match(predicates: &Vec<Predicate>, fm: &Frontmatter) -> (r: bool)
    ensures
        r == all_hold(predicates_data(predicates@), value::table_data(fm@)),
{
    let ghost ps = predicates_data(predicates@);
    let mut i: usize = 0;
    while i < predicates.len()
        invariant
            i <= predicates@.len(),
            ps == predicates_data(predicates@),
            forall|j: int|
                0 <= j < i ==> predicate_holds(#[trigger] ps[j], value::table_data(fm@)),
        decreases predicates@.len() - i,
    {
        if !predicate_match(&predicates[i], fm) {
            assert(!predicate_holds(ps[i as int], value::table_data(fm@)));
            return false;
        }
        i += 1;
    }
    true
}

/// Whether a path is in the scope that a query sets: under the path prefix,
/// which ends on a whole segment, or the prefix itself, and in no
/// subdirectory unless the query recurses.
pub open spec fn in_scope(path: Seq<char>, prefix: Seq<char>, recursive: bool) -> bool {
    if prefix.len() == 0 {
        recursive || !path.contains('/')
    } else if path == prefix {
        true
    } else {
        match text::after_prefix(path, prefix + "/"@) {
            Some(rest) => recursive || !rest.contains('/'),
            None => false,
        }
    }
}

/// Whether a path is in the scope that a query sets.
pub fn path_matches(path: &str, prefix: &str, recursive: bool) -> (r: bool)
    ensures
        r == in_scope(path@, prefix@, recursive),
{
    if prefix.is_empty() {
        return recursive || !text::contains_char(path, '/');
    }
    if text::same(path, prefix) {
        return true;
    }
    match text::strip_prefix(path, text::concat(prefix, "/").as_str()) {
        Some(rest) => recursive || !text::contains_char(rest.as_str(), '/'),
        None => false,
    }
}

/// The path prefix of a query; empty if it sets none.
pub open spec fn scope_of(q: QueryData) -> Seq<char> {
    match q.path_prefix {
        Some(p) => p,
        None => seq![],
    }
}

/// Whether a query selects a note.
pub open spec fn selected(q: QueryData, note: NoteData) -> bool {
    in_scope(note.path, scope_of(q), q.recursive) && all_hold(q.predicates, note.frontmatter)
}

/// Whether a query selects the note of a path.
pub open spec fn selects(m: Map<Seq<char>, NoteData>, q: QueryData) -> spec_fn(Seq<char>) -> bool {
    |path: Seq<char>| selected(q, m[path])
}

/// The paths of the notes that a query selects, in ascending order.
pub open spec fn matching(m: Map<Seq<char>, NoteData>, q: QueryData) -> Seq<Seq<char>> {
    sorted::ascending(m.dom()).filter(selects(m, q))
}

fn note_matches(q: &ParsedQuery, note: &Note) -> (r: bool)
    ensures
        r == selected(q@, note@),
{
    let scoped = match &q.path_prefix {
        Some(p) => path_matches(note.path.as_str(), p.as_str(), q.recursive),
        None => {
            let none = String::new();
            assert(none@ =~= seq![]);
            path_matches(note.path.as_str(), none.as_str(), q.recursive)
        },
    };
    scoped && predicates_match(&q.predicates, &note.frontmatter)
}

/// RFC 3339 text of an instant in whole seconds with a `Z`, the form of every
/// timestamp in a response.
pub fn rfc3339_z(at: Instant) -> (r: String)
    ensures
        r@ == outside::utc_text(at@.0, at@.1),
{
    at.to_rfc3339()
}

/// One row of a query response: what is known of a note, without its body.
#[derive(Debug)]
pub struct ResultEntry {
    pub path: String,
    pub frontmatter: Json,
    pub last_modified: String,
    pub etag: String,
    pub size: u64,
}

/// A query response: the rows, how many notes matched in all, and whether the
/// limit cut rows off.
#[derive(Debug)]
pub struct QueryResponse {
    pub results: Vec<ResultEntry>,
    pub total: usize,
    pub truncated: bool,
}

/// Whether a row shows a note, its time written by `format_ts`.
pub open spec fn shows<F: Fn(Instant) -> String>(
    e: ResultEntry,
    note: NoteData,
    format_ts: F,
) -> bool {
    &&& e.path@ == note.path
    &&& e.frontmatter@ == json::frontmatter_json(note.frontmatter)
    &&& e.etag@ == note.etag
    &&& e.size == note.size
    &&& exists|t: Instant|
        t@ == note.last_modified && #[trigger] call_ensures(format_ts, (t,), e.last_modified)
}

/// How many of `total` items a limit lets through.
pub open spec fn limited(total: nat, limit: Option<usize>) -> nat {
    match limit {
        Some(l) => if l < total {
            l as nat
        } else {
            total
        },
        None => total,
    }
}

/// Whether a response answers a query: a row for each selected note in path
/// order, up to the limit; the total counts them all.
pub open spec fn answers<F: Fn(Instant) -> String>(
    r: QueryResponse,
    m: Map<Seq<char>, NoteData>,
    q: QueryData,
    format_ts: F,
) -> bool {
    let paths = matching(m, q);
    &&& r.total == paths.len()
    &&& r.results@.len() == limited(paths.len(), q.limit)
    &&& r.truncated == (r.results@.len() < r.total)
    &&& forall|i: int|
        0 <= i < r.results@.len() ==> shows(#[trigger] r.results@[i], m[paths[i]], format_ts)
}

/// Runs a query over the notes.
pub fn execute<F>(store: &NoteStore, query: &ParsedQuery, format_ts: F) -> (r: QueryResponse) where
    F: Fn(Instant) -> String,

    requires
        forall|t: Instant| #[trigger] call_requires(format_ts, (t,)),
    ensures
        answers(r, store@, query@, format_ts),
{
    let notes = store.notes();
    let n: usize = notes.len();
    let ghost m = store@;
    let ghost keys = sorted::ascending(m.dom());
    let ghost pred = selects(m, query@);
    let mut out: Vec<ResultEntry> = Vec::new();
    let mut i: usize = 0;
    proof {
        assert(m.dom() =~= notes@.dom());
        reveal(Seq::filter);
        assert(keys.take(0).filter(pred) =~= seq![]);
    }
    while i < n
        invariant
            i <= n == keys.len(),
            m == store@,
            m == store::records(notes@),
            store::keyed(notes@),
            keys == sorted::ascending(m.dom()),
            keys == sorted::ascending(notes@.dom()),
            sorted::lists(keys, notes@.dom()),
            pred == selects(m, query@),
            forall|t: Instant| #[trigger] call_requires(format_ts, (t,)),
            out@.len() == keys.take(i as int).filter(pred).len(),
            forall|j: int|
                0 <= j < out@.len() ==> shows(
                    #[trigger] out@[j],
                    m[keys.take(i as int).filter(pred)[j]],
                    format_ts,
                ),
        decreases n - i,
    {
        let note = notes.value_at(i);
        let ghost key = keys[i as int];
        proof {
            assert(keys.contains(key));
            assert(notes@.contains_key(key));
            assert(m[key] == note@);
            reveal(Seq::filter);
            assert(keys.take(i + 1).drop_last() =~= keys.take(i as int));
            assert(keys.take(i + 1).last() == key);
        }
        if note_matches(query, note) {
            let last_modified = format_ts(note.last_modified);
            let entry = ResultEntry {
                path: note.path.clone(),
                frontmatter: json::frontmatter_to_json(&note.frontmatter),
                last_modified,
                etag: note.etag.clone(),
                size: note.size,
            };
            proof {
                let t = note.last_modified;
                assert(t@ == m[key].last_modified);
                assert(call_ensures(format_ts, (t,), entry.last_modified));
                assert(entry.frontmatter@ == json::frontmatter_json(m[key].frontmatter));
                assert(entry.path@ == m[key].path);
                assert(entry.etag@ == m[key].etag);
                assert(shows(entry, m[key], format_ts));
            }
            out.push(entry);
        }
        i += 1;
    }
    assert(keys.take(n as int) =~= keys);
    let total: usize = out.len();
    let mut truncated = false;
    match query.limit {
        Some(limit) => {
            if total > limit {
                out.truncate(limit);
                truncated = true;
            }
        },
        None => {},
    }
    QueryResponse { results: out, total, truncated }
}

/// Why a merge was refused: the guard on the kind of the notes, with what it
/// has to say.
#[derive(Debug, PartialEq, Eq)]
pub enum MergeError {
    KindGuard(String),
}

/// The value of an optional key in a frontmatter.
pub open spec fn optional_value(fm: Map<Seq<char>, Data>, key: Option<Seq<char>>) -> Option<Data> {
    match key {
        Some(k) => looked_up(fm, k),
        None => None,
    }
}

/// The key that a query orders fragments by.
pub open spec fn order_key(q: QueryData) -> Option<Seq<char>> {
    match q.order {
        Some(o) => Some(o.key),
        None => None,
    }
}

/// Whether a query orders fragments downwards.
pub open spec fn descends(q: QueryData) -> bool {
    match q.order {
        Some(o) => o.desc,
        None => false,
    }
}

/// The fragment that a note gives in a merge.
pub open spec fn fragment_of(q: QueryData, note: NoteData) -> FragmentData {
    FragmentData {
        path: note.path,
        body: note.body,
        order: optional_value(note.frontmatter, order_key(q)),
        kind: optional_value(note.frontmatter, q.kind_key),
    }
}

/// The fragments of the notes that a query selects, in path order.
pub open spec fn matched_fragments(m: Map<Seq<char>, NoteData>, q: QueryData) -> Seq<
    FragmentData,
> {
    matching(m, q).map_values(|path: Seq<char>| fragment_of(q, m[path]))
}

/// The fragments of a query in the order that it merges them in.
pub open spec fn ordered_fragments(m: Map<Seq<char>, NoteData>, q: QueryData) -> Seq<
    FragmentData,
> {
    fragments::arranged(matched_fragments(m, q), descends(q))
}

/// Whether a document is the merge that a query asks for: the fragments in
/// order, cut to the limit only then.
pub open spec fn is_merge(doc: Seq<char>, m: Map<Seq<char>, NoteData>, q: QueryData) -> bool {
    doc == fragments::document(
        ordered_fragments(m, q).take(limited(ordered_fragments(m, q).len(), q.limit) as int),
    )
}

/// Whether the guard refuses a merge.
pub open spec fn merge_refused(m: Map<Seq<char>, NoteData>, q: QueryData) -> bool {
    q.kind_key is Some && !fragments::of_one_kind(matched_fragments(m, q))
}

/// Whether a result is what a merge gives: the document, or the refusal of the
/// guard.
pub open spec fn merges(
    r: Result<String, MergeError>,
    m: Map<Seq<char>, NoteData>,
    q: QueryData,
) -> bool {
    match r {
        Ok(doc) => !merge_refused(m, q) && is_merge(doc@, m, q),
        Err(MergeError::KindGuard(message)) => merge_refused(m, q) && message@
            == fragments::guard_refusal(q.kind_key->0, matched_fragments(m, q)),
    }
}

/// Merges the bodies of the notes that a query selects into one document.
/// Guard and order apply to all selected notes, before the limit cuts any off.
pub fn execute_merge(store: &NoteStore, query: &ParsedQuery) -> (r: Result<String, MergeError>)
    ensures
        merges(r, store@, query@),
{
    let notes = store.notes();
    let n: usize = notes.len();
    let ghost m = store@;
    let ghost q = query@;
    let ghost keys = sorted::ascending(m.dom());
    let ghost pred = selects(m, q);
    let mut frags: Vec<Fragment> = Vec::new();
    let mut i: usize = 0;
    proof {
        assert(m.dom() =~= notes@.dom());
        reveal(Seq::filter);
        assert(keys.take(0).filter(pred) =~= seq![]);
    }
    while i < n
        invariant
            i <= n == keys.len(),
            m == store@,
            q == query@,
            m == store::records(notes@),
            keys == sorted::ascending(m.dom()),
            keys == sorted::ascending(notes@.dom()),
            sorted::lists(keys, notes@.dom()),
            pred == selects(m, q),
            frags@.len() == keys.take(i as int).filter(pred).len(),
            forall|j: int|
                0 <= j < frags@.len() ==> (#[trigger] frags@[j])@ == fragment_of(
                    q,
                    m[keys.take(i as int).filter(pred)[j]],
                ),
        decreases n - i,
    {
        let note = notes.value_at(i);
        let ghost key = keys[i as int];
        proof {
            assert(keys.contains(key));
            assert(notes@.contains_key(key));
            assert(m[key] == note@);
            reveal(Seq::filter);
            assert(keys.take(i + 1).drop_last() =~= keys.take(i as int));
            assert(keys.take(i + 1).last() == key);
        }
        if note_matches(query, note) {
            let order_value = match &query.order {
                Some(o) => lookup_dotted(&note.frontmatter, o.key.as_str()),
                None => None,
            };
            let kind_value = match &query.kind_key {
                Some(k) => lookup_dotted(&note.frontmatter, k.as_str()),
                None => None,
            };
            let f = Fragment { path: &note.path, body: &note.body, order_value, kind_value };
            assert(f@ =~= fragment_of(q, m[key]));
            frags.push(f);
        }
        i += 1;
    }
    let ghost found = matched_fragments(m, q);
    proof {
        assert(keys.take(n as int) =~= keys);
        assert(fragments::fragments_data(frags@) =~= found);
    }
    match &query.kind_key {
        Some(key) => match fragments::check_kind(key.as_str(), &frags) {
            Some(message) => {
                return Err(MergeError::KindGuard(message));
            },
            None => {},
        },
        None => {},
    }
    let desc = match &query.order {
        Some(o) => o.desc,
        None => false,
    };
    let ordered = fragments::sort_fragments(frags, desc);
    let total: usize = ordered.len();
    let kept: usize = match query.limit {
        Some(limit) => if limit < total {
            limit
        } else {
            total
        },
        None => total,
    };
    let doc = fragments::assemble(&ordered, kept);
    proof {
        assert(fragments::fragments_data(ordered@) == ordered_fragments(m, q));
        assert(ordered_fragments(m, q).len() == total);
    }
    Ok(doc)
}

// -- laws -------------------------------------------------------------------

/// A query selects paths in strictly ascending order, each of a note that it
/// selects, and leaves none of those out.
pub proof fn matching_is_complete(m: Map<Seq<char>, NoteData>, q: QueryData, path: Seq<char>)
    requires
        m.dom().finite(),
    ensures
        sorted::strictly_ascending(matching(m, q)),
        matching(m, q).contains(path) <==> m.contains_key(path) && selected(q, m[path]),
{
    let keys = sorted::ascending(m.dom());
    sorted::finite_sets_are_listed(m.dom());
    sorted::filter_ascends(keys, selects(m, q));
    sorted::filter_contains(keys, selects(m, q), path);
    assert(m.dom().contains(path) <==> keys.contains(path));
}

/// Predicates narrow: a query with one predicate more selects exactly the
/// notes that it selected and of which that predicate holds.
pub proof fn predicates_narrow(q: QueryData, p: PredicateData, note: NoteData)
    ensures
        selected(QueryData { predicates: q.predicates.push(p), ..q }, note) <==> selected(q, note)
            && predicate_holds(p, note.frontmatter),
{
    let more = q.predicates.push(p);
    let fm = note.frontmatter;
    if all_hold(more, fm) {
        assert forall|i: int| 0 <= i < q.predicates.len() implies predicate_holds(
            #[trigger] q.predicates[i],
            fm,
        ) by {
            assert(predicate_holds(more[i], fm));
        }
        assert(predicate_holds(more[q.predicates.len() as int], fm));
    }
    if all_hold(q.predicates, fm) && predicate_holds(p, fm) {
        assert forall|i: int| 0 <= i < more.len() implies predicate_holds(
            #[trigger] more[i],
            fm,
        ) by {
            if i < q.predicates.len() {
                assert(predicate_holds(q.predicates[i], fm));
            }
        }
    }
}

/// `__not` holds exactly where equality does not; so it holds of a note that
/// lacks the field.
pub proof fn not_is_the_opposite(p: PredicateData, fm: Map<Seq<char>, Data>)
    requires
        p.op == Operator::Eq,
    ensures
        predicate_holds(PredicateData { op: Operator::Not, ..p }, fm) == !predicate_holds(p, fm),
{
}

/// `__in` with a single value is equality with it.
pub proof fn in_of_one_is_equality(p: PredicateData, fm: Map<Seq<char>, Data>)
    requires
        p.op == Operator::In,
        listed(p.value) == seq![p.value],
    ensures
        predicate_holds(p, fm) == predicate_holds(PredicateData { op: Operator::Eq, ..p }, fm),
{
    assert(listed(p.value)[0] == p.value);
    let target = looked_up(fm, p.field);
    if target is Some && equals(target->0, p.value) {
        assert(equals(target->0, listed(p.value)[0]));
    }
}

/// A path prefix ends on a whole segment: a path in its scope is the prefix
/// itself or goes on with a slash.
pub proof fn scope_ends_on_a_segment(path: Seq<char>, prefix: Seq<char>, recursive: bool)
    requires
        prefix.len() > 0,
        in_scope(path, prefix, recursive),
    ensures
        path == prefix || text::has_prefix(path, prefix + "/"@),
{
}

/// A query that does not recurse selects no more than one that does.
pub proof fn recursion_widens(q: QueryData, note: NoteData)
    requires
        selected(QueryData { recursive: false, ..q }, note),
    ensures
        selected(QueryData { recursive: true, ..q }, note),
{
}

/// The limit decides nothing but how much is shown: what a query matches, the
/// fragments it merges and their order, and whether the guard refuses them are
/// the same without it.
pub proof fn limit_cuts_only(m: Map<Seq<char>, NoteData>, q: QueryData, limit: Option<usize>)
    ensures
        ({
            let other = QueryData { limit, ..q };
            &&& matching(m, other) == matching(m, q)
            &&& matched_fragments(m, other) == matched_fragments(m, q)
            &&& ordered_fragments(m, other) == ordered_fragments(m, q)
            &&& merge_refused(m, other) == merge_refused(m, q)
        }),
{
    let other = QueryData { limit, ..q };
    assert(selects(m, other) =~= selects(m, q));
    assert forall|path: Seq<char>| fragment_of(other, m[path]) == fragment_of(q, m[path]) by {}
    assert(matched_fragments(m, other) =~= matched_fragments(m, q));
}

/// A limited merge is the beginning of the whole one. The same queries are
/// refused, with the same message; and where the whole merge is that of some
/// fragments, the limited one is that of the first of them, as many as the
/// limit says, or all if there are fewer.
pub proof fn limited_merge_is_the_beginning(
    m: Map<Seq<char>, NoteData>,
    q: QueryData,
    n: usize,
    whole: Seq<char>,
    cut: Seq<char>,
)
    requires
        is_merge(whole, m, QueryData { limit: None, ..q }),
        is_merge(cut, m, QueryData { limit: Some(n), ..q }),
    ensures
        ({
            let all = QueryData { limit: None::<usize>, ..q };
            let some = QueryData { limit: Some(n), ..q };
            let ordered = ordered_fragments(m, all);
            let kept = if n < ordered.len() {
                n as int
            } else {
                ordered.len() as int
            };
            &&& merge_refused(m, some) == merge_refused(m, all)
            &&& fragments::guard_refusal(some.kind_key->0, matched_fragments(m, some))
                == fragments::guard_refusal(all.kind_key->0, matched_fragments(m, all))
            &&& whole == fragments::document(ordered)
            &&& cut == fragments::document(ordered.take(kept))
        }),
{
    let all = QueryData { limit: None::<usize>, ..q };
    limit_cuts_only(m, all, Some(n));
    assert(QueryData { limit: Some(n), ..all } == QueryData { limit: Some(n), ..q });
    let ordered = ordered_fragments(m, all);
    assert(ordered.take(ordered.len() as int) =~= ordered);
}

/// Order and guard keys are for merging only: what a query matches is the same
/// without them.
pub proof fn order_and_kind_select_nothing(
    m: Map<Seq<char>, NoteData>,
    q: QueryData,
    order: Option<OrderData>,
    kind_key: Option<Seq<char>>,
)
    ensures
        matching(m, QueryData { order, kind_key, ..q }) == matching(m, q),
{
    let other = QueryData { order, kind_key, ..q };
    assert(selects(m, other) =~= selects(m, q));
}

/// Order and guard keys change no row: the responses that answer a query with
/// them are exactly those that answer it without, whatever writes the times.
pub proof fn order_and_kind_change_no_answer<F: Fn(Instant) -> String>(
    r: QueryResponse,
    m: Map<Seq<char>, NoteData>,
    q: QueryData,
    order: Option<OrderData>,
    kind_key: Option<Seq<char>>,
    format_ts: F,
)
    ensures
        answers(r, m, QueryData { order, kind_key, ..q }, format_ts) == answers(
            r,
            m,
            q,
            format_ts,
        ),
{
    order_and_kind_select_nothing(m, q, order, kind_key);
}

/// Whether times are written in one way: equal instants give equal text.
pub open spec fn one_text_for_one_instant<F: Fn(Instant) -> String>(format_ts: F) -> bool {
    forall|t: Instant, u: Instant, a: String, b: String|
        t@ == u@ && #[trigger] call_ensures(format_ts, (t,), a) && #[trigger] call_ensures(
            format_ts,
            (u,),
            b,
        ) ==> a@ == b@
}

/// Two responses to one query have the same rows, the same total and the same
/// mark of being cut. Only the text of a time is left to what writes the times;
/// where that gives one text for one instant, it is the same too.
pub proof fn answers_agree<F: Fn(Instant) -> String>(
    a: QueryResponse,
    b: QueryResponse,
    m: Map<Seq<char>, NoteData>,
    q: QueryData,
    format_ts: F,
)
    requires
        answers(a, m, q, format_ts),
        answers(b, m, q, format_ts),
    ensures
        a.total == b.total,
        a.truncated == b.truncated,
        a.results@.len() == b.results@.len(),
        forall|i: int|
            0 <= i < a.results@.len() ==> (#[trigger] a.results@[i]).path@ == b.results@[i].path@
                && a.results@[i].frontmatter@ == b.results@[i].frontmatter@
                && a.results@[i].etag@ == b.results@[i].etag@ && a.results@[i].size
                == b.results@[i].size,
        one_text_for_one_instant(format_ts) ==> forall|i: int|
            0 <= i < a.results@.len() ==> (#[trigger] a.results@[i]).last_modified@
                == b.results@[i].last_modified@,
{
    assert forall|i: int| 0 <= i < a.results@.len() implies (#[trigger] a.results@[i]).path@
        == b.results@[i].path@ && a.results@[i].frontmatter@ == b.results@[i].frontmatter@
        && a.results@[i].etag@ == b.results@[i].etag@ && a.results@[i].size == b.results@[i].size
        && (one_text_for_one_instant(format_ts) ==> a.results@[i].last_modified@
        == b.results@[i].last_modified@) by {
        let note = m[matching(m, q)[i]];
        assert(shows(a.results@[i], note, format_ts));
        assert(shows(b.results@[i], note, format_ts));
    }
}

/// A merge that matches nothing is an empty document, and is not refused.
pub proof fn empty_merge(m: Map<Seq<char>, NoteData>, q: QueryData, doc: Seq<char>)
    requires
        matching(m, q).len() == 0,
        is_merge(doc, m, q),
    ensures
        doc.len() == 0,
        !merge_refused(m, q),
{
    assert(matched_fragments(m, q) =~= seq![]);
    assert(ordered_fragments(m, q).take(limited(0, q.limit) as int) =~= Seq::<
        FragmentData,
    >::empty());
    fragments::empty_document();
}

/// The fragments of a query stand in path order.
pub proof fn fragments_ascend(m: Map<Seq<char>, NoteData>, q: QueryData)
    requires
        m.dom().finite(),
        store::well_keyed(m),
    ensures
        fragments::paths_ascend(matched_fragments(m, q)),
{
    let paths = matching(m, q);
    let s = matched_fragments(m, q);
    sorted::finite_sets_are_listed(m.dom());
    sorted::filter_ascends(sorted::ascending(m.dom()), selects(m, q));
    assert forall|i: int, j: int| 0 <= i < j < s.len() implies text::precedes(
        (#[trigger] s[i]).path,
        (#[trigger] s[j]).path,
    ) by {
        assert(paths.contains(paths[i]) && paths.contains(paths[j]));
        matching_is_complete(m, q, paths[i]);
        matching_is_complete(m, q, paths[j]);
        assert(text::precedes(paths[i], paths[j]));
    }
}

/// A merge holds the fragments of the query, each once, and has them in order
/// wherever there is a consistent one.
pub proof fn merge_is_in_order(m: Map<Seq<char>, NoteData>, q: QueryData)
    ensures
        fragments::is_ordering(ordered_fragments(m, q), matched_fragments(m, q), descends(q)),
{
    fragments::arranged_is_ordering(matched_fragments(m, q), descends(q));
}

/// Where the order of the fragments is consistent, it alone decides the merge:
/// any way to put the fragments in order gives the same document.
pub proof fn merge_is_determined(
    m: Map<Seq<char>, NoteData>,
    q: QueryData,
    ordered: Seq<FragmentData>,
)
    requires
        m.dom().finite(),
        store::well_keyed(m),
        fragments::consistent(matched_fragments(m, q).to_multiset(), descends(q)),
        fragments::is_ordering(ordered, matched_fragments(m, q), descends(q)),
    ensures
        is_merge(
            fragments::document(ordered.take(limited(ordered.len(), q.limit) as int)),
            m,
            q,
        ),
{
    let found = matched_fragments(m, q);
    merge_is_in_order(m, q);
    fragments_ascend(m, q);
    fragments::ascending_paths_differ(found);
    fragments::same_fragments_differ(found, ordered);
    fragments::ordering_is_unique(ordered, ordered_fragments(m, q), descends(q));
}

/// Without an order key, the merge is the fragments in path order, cut to the
/// limit.
pub proof fn merge_without_order(m: Map<Seq<char>, NoteData>, q: QueryData, doc: Seq<char>)
    requires
        m.dom().finite(),
        store::well_keyed(m),
        q.order is None,
        is_merge(doc, m, q),
    ensures
        doc == fragments::document(
            matched_fragments(m, q).take(limited(matched_fragments(m, q).len(), q.limit) as int),
        ),
{
    merge_is_in_order(m, q);
    fragments_ascend(m, q);
    fragments::unordered_is_by_path(
        ordered_fragments(m, q),
        matched_fragments(m, q),
        descends(q),
    );
}

/// Whether a pair is taken does not depend on the pairs before it, and neither
/// does its error.
pub proof fn pairs_are_judged_alone(a: QueryData, b: QueryData, pair: Seq<char>)
    ensures
        pair_applied(a, pair) is Ok <==> pair_applied(b, pair) is Ok,
        pair_applied(a, pair) is Err ==> pair_applied(a, pair)->Err_0 == pair_applied(
            b,
            pair,
        )->Err_0,
{
}

/// A query string is taken exactly if each of its pairs is; otherwise its error
/// is that of the first pair that is not.
pub proof fn query_is_taken_pair_by_pair(pairs: Seq<Seq<char>>, i: int)
    requires
        0 <= i < pairs.len(),
    ensures
        pairs_applied(pairs) is Ok ==> pair_applied(match_all(), pairs[i]) is Ok,
        (forall|j: int| 0 <= j < i ==> pair_applied(match_all(), #[trigger] pairs[j]) is Ok)
            && pair_applied(match_all(), pairs[i]) is Err ==> pairs_applied(pairs) is Err
            && pairs_applied(pairs)->Err_0 == pair_applied(match_all(), pairs[i])->Err_0,
        (forall|j: int| 0 <= j <= i ==> pair_applied(match_all(), #[trigger] pairs[j]) is Ok)
            ==> pairs_applied(pairs.take(i + 1)) is Ok,
    decreases pairs.len(),
{
    let rest = pairs.drop_last();
    let n = pairs.len() - 1;
    assert forall|j: int| 0 <= j < rest.len() implies rest[j] == #[trigger] pairs[j] by {}
    match pairs_applied(rest) {
        Ok(q) => {
            pairs_are_judged_alone(q, match_all(), pairs[n]);
        },
        Err(_) => {},
    }
    if i < n {
        query_is_taken_pair_by_pair(rest, i);
        assert(rest.take(i + 1) =~= pairs.take(i + 1));
        if forall|j: int| 0 <= j < i ==> pair_applied(match_all(), #[trigger] pairs[j]) is Ok {
            assert forall|j: int| 0 <= j < i implies pair_applied(
                match_all(),
                #[trigger] rest[j],
            ) is Ok by {
                assert(pair_applied(match_all(), pairs[j]) is Ok);
            }
        }
        if forall|j: int| 0 <= j <= i ==> pair_applied(match_all(), #[trigger] pairs[j]) is Ok {
            assert forall|j: int| 0 <= j <= i implies pair_applied(
                match_all(),
                #[trigger] rest[j],
            ) is Ok by {
                assert(pair_applied(match_all(), pairs[j]) is Ok);
            }
        }
    } else {
        assert(pairs.take(i + 1) =~= pairs);
        if forall|j: int| 0 <= j < i ==> pair_applied(match_all(), #[trigger] pairs[j]) is Ok {
            if rest.len() > 0 {
                query_is_taken_pair_by_pair(rest, rest.len() - 1);
                assert forall|j: int| 0 <= j <= rest.len() - 1 implies pair_applied(
                    match_all(),
                    #[trigger] rest[j],
                ) is Ok by {
                    assert(pair_applied(match_all(), pairs[j]) is Ok);
                }
                assert(rest.take(rest.len() as int) =~= rest);
            }
        }
    }
}

/// A key with an operator suffix that is not known is refused, and the suffix
/// is named.
pub proof fn unknown_operator_is_refused(q: QueryData, pair: Seq<char>, suffix: Seq<char>)
    requires
        pair.len() > 0,
        ({
            let (k, v) = match text::cut(pair, '=') {
                Some(kv) => kv,
                None => (pair, seq![]),
            };
            &&& percent::decoded(k, true) matches Some(key) && text::after_prefix(
                key,
                "__anw-"@,
            ) is None && field_and_operator(key) == Err::<(Seq<char>, Operator), Seq<char>>(
                suffix,
            )
            &&& percent::decoded(v, true) is Some
        }),
    ensures
        pair_applied(q, pair) == Err::<QueryData, QueryErrorData>(
            QueryErrorData::UnknownOperator(suffix),
        ),
{
}

/// A key without a dot leads to the value of that name; a key with dots leads
/// into the table of the part before the first dot, by the rest.
pub proof fn dotted_keys_lead_inward(
    fm: Map<Seq<char>, Data>,
    key: Seq<char>,
    rest: Seq<char>,
)
    requires
        !key.contains('.'),
    ensures
        looked_up(fm, key) == if fm.contains_key(key) {
            Some(fm[key])
        } else {
            None
        },
        looked_up(fm, key + seq!['.'] + rest) == if fm.contains_key(key) && fm[key] is Table {
            looked_up(fm[key]->Table_0, rest)
        } else {
            None
        },
{
    let all = key + seq!['.'] + rest;
    assert forall|j: int| 0 <= j < key.len() implies key[j] != '.' by {
        assert(key.contains(key[j]));
    }
    text::before_is(key, '.', key.len());
    assert(text::split(key, '.') =~= seq![key]);
    assert(all[key.len() as int] == '.');
    text::before_is(all, '.', key.len());
    assert(all.take(key.len() as int) =~= key);
    assert(all.skip(key.len() as int + 1) =~= rest);
    let keys = text::split(all, '.');
    assert(keys == seq![key] + text::split(rest, '.'));
    assert(keys.skip(1) =~= text::split(rest, '.'));
    text::split_pieces_join_again(rest, '.');
}

/// Equality is with what a value says: a text itself, a truth value as `true`
/// or `false`, a number in its digits, an instant in UTC. A list equals what one
/// of its items says that is neither list nor table; a table equals nothing, and
/// a field that is missing equals nothing.
pub proof fn equality_is_with_what_is_said(
    p: PredicateData,
    fm: Map<Seq<char>, Data>,
    target: Option<Data>,
)
    requires
        p.op == Operator::Eq,
        looked_up(fm, p.field) == target,
    ensures
        target is None ==> !predicate_holds(p, fm),
        target matches Some(Data::Text(s)) ==> (predicate_holds(p, fm) <==> s == p.value),
        target == Some(Data::Bool(true)) ==> (predicate_holds(p, fm) <==> p.value == "true"@),
        target == Some(Data::Bool(false)) ==> (predicate_holds(p, fm) <==> p.value == "false"@),
        target == Some(Data::Null) ==> (predicate_holds(p, fm) <==> p.value == "null"@),
        target matches Some(Data::Int(i)) ==> (predicate_holds(p, fm) <==> p.value
            == numbers::int_text(i as int)),
        target matches Some(Data::Float(f)) ==> (predicate_holds(p, fm) <==> p.value == f.text),
        target matches Some(Data::Date(y, m, d)) ==> (predicate_holds(p, fm) <==> p.value
            == dates::date_text(y, m, d)),
        target matches Some(Data::DateTime(t)) ==> (predicate_holds(p, fm) <==> p.value
            == outside::utc_text(t.at.0, t.at.1)),
        target matches Some(Data::Table(_)) ==> !predicate_holds(p, fm),
        target matches Some(Data::List(items)) ==> (predicate_holds(p, fm) <==> exists|i: int|
            0 <= i < items.len() && !(#[trigger] items[i] is List) && !(items[i] is Table)
                && value::canonical_text(items[i]) == p.value),
{
    if let Some(Data::List(items)) = target {
        if exists|i: int|
            0 <= i < items.len() && !(#[trigger] items[i] is List) && !(items[i] is Table)
                && value::canonical_text(items[i]) == p.value {
            let i = choose|i: int|
                0 <= i < items.len() && !(#[trigger] items[i] is List) && !(items[i] is Table)
                    && value::canonical_text(items[i]) == p.value;
            assert(scalar_equals(items[i], p.value));
        }
        if predicate_holds(p, fm) {
            let i = choose|i: int|
                0 <= i < items.len() && scalar_equals(#[trigger] items[i], p.value);
            assert(!(items[i] is List) && !(items[i] is Table));
        }
    }
}

/// A list of values is split at its commas, and what is around a value does not
/// count: `__in` holds if equality with one of them does, `__all` if the field
/// is a list and equality with each of them does.
pub proof fn listed_values_are_told_by_commas(
    p: PredicateData,
    fm: Map<Seq<char>, Data>,
    values: Seq<Seq<char>>,
)
    requires
        values.len() > 0,
        forall|i: int| 0 <= i < values.len() ==> !(#[trigger] values[i]).contains(','),
        p.value == text::joined(values, seq![',']),
    ensures
        p.op == Operator::In ==> (predicate_holds(p, fm) <==> exists|i: int|
            0 <= i < values.len() && predicate_holds(
                PredicateData {
                    op: Operator::Eq,
                    value: text::trimmed(#[trigger] values[i]),
                    ..p
                },
                fm,
            )),
        p.op == Operator::All ==> (predicate_holds(p, fm) <==> (looked_up(fm, p.field) matches Some(
            Data::List(_),
        )) && forall|i: int|
            0 <= i < values.len() ==> predicate_holds(
                PredicateData {
                    op: Operator::Eq,
                    value: text::trimmed(#[trigger] values[i]),
                    ..p
                },
                fm,
            )),
{
    text::joined_pieces_split_again(values, ',');
    let parts = listed(p.value);
    assert(parts.len() == values.len());
    assert forall|i: int| 0 <= i < values.len() implies #[trigger] parts[i] == text::trimmed(
        values[i],
    ) by {}
    let target = looked_up(fm, p.field);
    if p.op == Operator::In && predicate_holds(p, fm) {
        let i = choose|i: int| 0 <= i < parts.len() && equals(target->0, #[trigger] parts[i]);
        assert(predicate_holds(
            PredicateData { op: Operator::Eq, value: text::trimmed(values[i]), ..p },
            fm,
        ));
    }
    if exists|i: int|
        0 <= i < values.len() && predicate_holds(
            PredicateData { op: Operator::Eq, value: text::trimmed(#[trigger] values[i]), ..p },
            fm,
        ) {
        let i = choose|i: int|
            0 <= i < values.len() && predicate_holds(
                PredicateData {
                    op: Operator::Eq,
                    value: text::trimmed(#[trigger] values[i]),
                    ..p
                },
                fm,
            );
        assert(equals(target->0, parts[i]));
    }
    if p.op == Operator::All && predicate_holds(p, fm) {
        assert forall|i: int| 0 <= i < values.len() implies predicate_holds(
            PredicateData { op: Operator::Eq, value: text::trimmed(#[trigger] values[i]), ..p },
            fm,
        ) by {
            assert(equals(target->0, parts[i]));
        }
    }
    if p.op == Operator::All && target is Some && target->0 is List && (forall|i: int|
        0 <= i < values.len() ==> predicate_holds(
            PredicateData { op: Operator::Eq, value: text::trimmed(#[trigger] values[i]), ..p },
            fm,
        )) {
        assert forall|i: int| 0 <= i < parts.len() implies equals(
            target->0,
            #[trigger] parts[i],
        ) by {
            let v = values[i];
            assert(predicate_holds(
                PredicateData { op: Operator::Eq, value: text::trimmed(v), ..p },
                fm,
            ));
        }
    }
}

/// `__exists=true` holds of the notes that have the field, `__exists=false` of
/// those that lack it. `__not` holds of the notes that lack it, and of those
/// whose text there is another.
pub proof fn presence_and_absence(p: PredicateData, fm: Map<Seq<char>, Data>)
    ensures
        p.op == Operator::Exists && p.value == "true"@ ==> (predicate_holds(p, fm) <==> looked_up(
            fm,
            p.field,
        ) is Some),
        p.op == Operator::Exists && p.value == "false"@ ==> (predicate_holds(p, fm) <==> looked_up(
            fm,
            p.field,
        ) is None),
        p.op == Operator::Not && looked_up(fm, p.field) is None ==> predicate_holds(p, fm),
        p.op == Operator::Not ==> (looked_up(fm, p.field) matches Some(Data::Text(s)) ==> (
        predicate_holds(p, fm) <==> s != p.value)),
{
    reveal_strlit("true");
    reveal_strlit("false");
    assert("true"@.len() == 4 && "false"@.len() == 5);
}

/// `__prefix` holds of the texts that go on from the value, and of nothing
/// else.
pub proof fn prefixes_are_of_texts(p: PredicateData, fm: Map<Seq<char>, Data>)
    requires
        p.op == Operator::Prefix,
    ensures
        predicate_holds(p, fm) <==> exists|rest: Seq<char>|
            looked_up(fm, p.field) == Some(Data::Text(#[trigger] (p.value + rest))),
{
    if predicate_holds(p, fm) {
        let s = looked_up(fm, p.field)->0->Text_0;
        let rest = s.skip(p.value.len() as int);
        assert(s =~= p.value + rest);
        assert(looked_up(fm, p.field) == Some(Data::Text(p.value + rest)));
    }
    if exists|rest: Seq<char>|
        looked_up(fm, p.field) == Some(Data::Text(#[trigger] (p.value + rest))) {
        let rest = choose|rest: Seq<char>|
            looked_up(fm, p.field) == Some(Data::Text(#[trigger] (p.value + rest)));
        assert((p.value + rest).take(p.value.len() as int) =~= p.value);
    }
}

/// `__regex` looks into a text as it is, and into any other scalar as it reads;
/// it finds nothing in a list or a table, nor where the field is missing.
pub proof fn patterns_are_found_in_scalars(p: PredicateData, fm: Map<Seq<char>, Data>)
    requires
        p.op == Operator::Regex,
    ensures
        looked_up(fm, p.field) matches Some(Data::Text(s)) ==> (predicate_holds(p, fm)
            <==> outside::regex_found(p.value, s)),
        looked_up(fm, p.field) matches Some(Data::List(_)) ==> !predicate_holds(p, fm),
        looked_up(fm, p.field) matches Some(Data::Table(_)) ==> !predicate_holds(p, fm),
        looked_up(fm, p.field) is None ==> !predicate_holds(p, fm),
        looked_up(fm, p.field) matches Some(d) ==> !(d is List) && !(d is Table) ==> (
        predicate_holds(p, fm) <==> outside::regex_found(p.value, value::canonical_text(d))),
{
}

/// A date is compared with a date, by the days: `__gt` holds of later days,
/// `__gte` of the day itself too, `__lt` of earlier ones, `__lte` of the day
/// itself too.
pub proof fn dates_compare_by_day(
    p: PredicateData,
    fm: Map<Seq<char>, Data>,
    a: (i32, u32, u32),
    b: (i32, u32, u32),
)
    requires
        looked_up(fm, p.field) == Some(Data::Date(a.0, a.1, a.2)),
        outside::iso_date(p.value) == Some(b),
        dates::valid_date(a.0, a.1, a.2),
        dates::valid_date(b.0, b.1, b.2),
    ensures
        p.op == Operator::Gt ==> (predicate_holds(p, fm) <==> dates::day_number(a)
            > dates::day_number(b)),
        p.op == Operator::Gte ==> (predicate_holds(p, fm) <==> dates::day_number(a)
            >= dates::day_number(b)),
        p.op == Operator::Lt ==> (predicate_holds(p, fm) <==> dates::day_number(a)
            < dates::day_number(b)),
        p.op == Operator::Lte ==> (predicate_holds(p, fm) <==> dates::day_number(a)
            <= dates::day_number(b)),
{
    dates::dates_are_ordered_by_day(a, b);
}

/// A date-time is compared with a date-time, by the instants, whatever offsets
/// they were written in.
pub proof fn date_times_compare_by_instant(
    p: PredicateData,
    fm: Map<Seq<char>, Data>,
    a: dates::DateTimeData,
    b: (i64, u32, i32),
)
    requires
        looked_up(fm, p.field) == Some(Data::DateTime(a)),
        outside::rfc3339(p.value) == Some(b),
    ensures
        p.op == Operator::Gt ==> (predicate_holds(p, fm) <==> a.at.0 > b.0 || (a.at.0 == b.0
            && a.at.1 > b.1)),
        p.op == Operator::Gte ==> (predicate_holds(p, fm) <==> a.at.0 > b.0 || (a.at.0 == b.0
            && a.at.1 >= b.1)),
        p.op == Operator::Lt ==> (predicate_holds(p, fm) <==> a.at.0 < b.0 || (a.at.0 == b.0
            && a.at.1 < b.1)),
        p.op == Operator::Lte ==> (predicate_holds(p, fm) <==> a.at.0 < b.0 || (a.at.0 == b.0
            && a.at.1 <= b.1)),
{
}

/// An integer is compared with an integer as such.
pub proof fn integers_compare_as_integers(p: PredicateData, fm: Map<Seq<char>, Data>, i: i64, n: int)
    requires
        looked_up(fm, p.field) == Some(Data::Int(i)),
        i64::MIN <= n <= i64::MAX,
        p.value == numbers::int_text(n),
    ensures
        p.op == Operator::Gt ==> (predicate_holds(p, fm) <==> i > n),
        p.op == Operator::Gte ==> (predicate_holds(p, fm) <==> i >= n),
        p.op == Operator::Lt ==> (predicate_holds(p, fm) <==> i < n),
        p.op == Operator::Lte ==> (predicate_holds(p, fm) <==> i <= n),
{
    numbers::written_integers_read_back(n, i64::MIN as int, i64::MAX as int);
}

/// A double is compared with the double that the value reads as; so is an
/// integer where the value is no integer. Here of doubles that are not negative,
/// which grow with their bits.
pub proof fn numbers_compare_as_doubles(
    p: PredicateData,
    fm: Map<Seq<char>, Data>,
    d: Data,
    a: u64,
    b: u64,
)
    requires
        looked_up(fm, p.field) == Some(d),
        d matches Data::Float(f) && f.bits == a || (d matches Data::Int(i) && value::int_bits(i) == a
            && numbers::signed_value(p.value, i64::MIN as int, i64::MAX as int) is None),
        p.number == Some(b),
        a <= 0x7ff0_0000_0000_0000,
        b <= 0x7ff0_0000_0000_0000,
    ensures
        p.op == Operator::Gt ==> (predicate_holds(p, fm) <==> a > b),
        p.op == Operator::Gte ==> (predicate_holds(p, fm) <==> a >= b),
        p.op == Operator::Lt ==> (predicate_holds(p, fm) <==> a < b),
        p.op == Operator::Lte ==> (predicate_holds(p, fm) <==> a <= b),
{
}

/// A negative number is less than one that is not; of two negative numbers the
/// one with the larger bits is the less.
pub proof fn negative_numbers_compare_as_doubles(
    p: PredicateData,
    fm: Map<Seq<char>, Data>,
    f: value::FloatData,
    b: u64,
)
    requires
        looked_up(fm, p.field) == Some(Data::Float(f)),
        p.number == Some(b),
        0x8000_0000_0000_0000 < f.bits <= 0xfff0_0000_0000_0000,
    ensures
        b <= 0x7ff0_0000_0000_0000 ==> (predicate_holds(p, fm) <==> p.op == Operator::Lt || p.op
            == Operator::Lte) || !(p.op == Operator::Gt || p.op == Operator::Gte || p.op
            == Operator::Lt || p.op == Operator::Lte),
        0x8000_0000_0000_0000 <= b <= 0xfff0_0000_0000_0000 ==> (p.op == Operator::Gt ==> (
        predicate_holds(p, fm) <==> f.bits < b)) && (p.op == Operator::Gte ==> (predicate_holds(
            p,
            fm,
        ) <==> f.bits <= b)) && (p.op == Operator::Lt ==> (predicate_holds(p, fm) <==> f.bits > b))
            && (p.op == Operator::Lte ==> (predicate_holds(p, fm) <==> f.bits >= b)),
{
}

/// A text is compared with the value as texts are, from the front.
pub proof fn texts_compare_from_the_front(
    p: PredicateData,
    fm: Map<Seq<char>, Data>,
    s: Seq<char>,
    k: int,
)
    requires
        looked_up(fm, p.field) == Some(Data::Text(s)),
        0 <= k <= s.len(),
        k <= p.value.len(),
        forall|j: int| 0 <= j < k ==> s[j] == p.value[j],
        k == s.len() || k == p.value.len() || s[k] != p.value[k],
    ensures
        ({
            let less = k < p.value.len() && (k == s.len() || s[k] < p.value[k]);
            let equal = k == s.len() && k == p.value.len();
            &&& p.op == Operator::Gt ==> (predicate_holds(p, fm) <==> !less && !equal)
            &&& p.op == Operator::Gte ==> (predicate_holds(p, fm) <==> !less)
            &&& p.op == Operator::Lt ==> (predicate_holds(p, fm) <==> less)
            &&& p.op == Operator::Lte ==> (predicate_holds(p, fm) <==> less || equal)
        }),
{
    text::first_difference_decides(s, p.value, k);
}

/// What cannot be compared is in no range: a field that is missing, null, a
/// truth value, a list, a table, and a date or date-time where the value is
/// none.
pub proof fn what_does_not_compare_is_in_no_range(p: PredicateData, fm: Map<Seq<char>, Data>)
    requires
        p.op == Operator::Gt || p.op == Operator::Gte || p.op == Operator::Lt || p.op
            == Operator::Lte,
        match looked_up(fm, p.field) {
            None => true,
            Some(Data::Null) => true,
            Some(Data::Bool(_)) => true,
            Some(Data::List(_)) => true,
            Some(Data::Table(_)) => true,
            Some(Data::Date(_, _, _)) => outside::iso_date(p.value) is None,
            Some(Data::DateTime(_)) => outside::rfc3339(p.value) is None,
            Some(Data::Float(_)) => p.number is None,
            _ => false,
        },
    ensures
        !predicate_holds(p, fm),
{
}

/// Whether a path lies in a directory at any depth, or is it; no directory is
/// the whole vault. Without recursion only what lies right in it counts.
pub open spec fn lies_in(path: Seq<char>, dir: Seq<char>, deep: bool) -> bool {
    if dir.len() == 0 {
        deep || !path.contains('/')
    } else {
        path == dir || exists|rest: Seq<char>|
            path == #[trigger] (dir + seq!['/'] + rest) && (deep || !rest.contains('/'))
    }
}

/// A query selects the notes that lie in its path and meet every one of its
/// predicates, and no others.
pub proof fn selection_is_path_and_predicates(q: QueryData, note: NoteData)
    ensures
        selected(q, note) <==> lies_in(
            note.path,
            match q.path_prefix {
                Some(p) => p,
                None => seq![],
            },
            q.recursive,
        ) && forall|i: int|
            0 <= i < q.predicates.len() ==> predicate_holds(
                #[trigger] q.predicates[i],
                note.frontmatter,
            ),
{
    reveal_strlit("/");
    assert("/"@ =~= seq!['/']);
    let dir = scope_of(q);
    let path = note.path;
    if dir.len() > 0 {
        let lead = dir + seq!['/'];
        match text::after_prefix(path, lead) {
            Some(rest) => {
                assert(path =~= lead + rest);
                assert(path == dir + seq!['/'] + rest);
            },
            None => {},
        }
        if exists|rest: Seq<char>|
            path == #[trigger] (dir + seq!['/'] + rest) && (q.recursive || !rest.contains('/')) {
            let rest = choose|rest: Seq<char>|
                path == #[trigger] (dir + seq!['/'] + rest) && (q.recursive || !rest.contains(
                    '/',
                ));
            assert(path.take(lead.len() as int) =~= lead);
            assert(path.skip(lead.len() as int) =~= rest);
        }
    }
}

/// A response has a row for each note that the query selects, up to the limit,
/// and no other row; the rows stand in ascending order of their paths; each
/// shows its note's path, entity tag and size. The total counts all selected
/// notes, and the mark of being cut is set exactly if rows are missing.
pub proof fn rows_are_the_selected_notes<F: Fn(Instant) -> String>(
    r: QueryResponse,
    m: Map<Seq<char>, NoteData>,
    q: QueryData,
    format_ts: F,
)
    requires
        m.dom().finite(),
        store::well_keyed(m),
        answers(r, m, q, format_ts),
    ensures
        r.total == Set::new(|path: Seq<char>| m.contains_key(path) && selected(q, m[path])).len(),
        r.truncated <==> r.results@.len() < r.total,
        q.limit is None ==> r.results@.len() == r.total,
        q.limit matches Some(n) ==> r.results@.len() == if n < r.total {
            n
        } else {
            r.total
        },
        forall|i: int|
            0 <= i < r.results@.len() ==> {
                let row = #[trigger] r.results@[i];
                &&& m.contains_key(row.path@)
                &&& selected(q, m[row.path@])
                &&& row.etag@ == m[row.path@].etag
                &&& row.size == m[row.path@].size
            },
        forall|i: int, j: int|
            0 <= i < j < r.results@.len() ==> text::precedes(
                (#[trigger] r.results@[i]).path@,
                (#[trigger] r.results@[j]).path@,
            ),
        r.results@.len() == r.total ==> forall|path: Seq<char>|
            m.contains_key(path) && #[trigger] selected(q, m[path]) ==> exists|i: int|
                0 <= i < r.results@.len() && (#[trigger] r.results@[i]).path@ == path,
        forall|i: int, path: Seq<char>|
            0 <= i < r.results@.len() && m.contains_key(path) && #[trigger] selected(q, m[path])
                && text::precedes(path, (#[trigger] r.results@[i]).path@) ==> exists|j: int|
                0 <= j < i && (#[trigger] r.results@[j]).path@ == path,
{
    let paths = matching(m, q);
    let all = Set::new(|path: Seq<char>| m.contains_key(path) && selected(q, m[path]));
    assert forall|path: Seq<char>| #[trigger] all.contains(path) <==> paths.contains(path) by {
        matching_is_complete(m, q, path);
    }
    if paths.len() > 0 {
        matching_is_complete(m, q, paths[0]);
    } else {
        matching_is_complete(m, q, seq![]);
    }
    assert(paths.no_duplicates()) by {
        assert forall|i: int, j: int|
            0 <= i < paths.len() && 0 <= j < paths.len() && i != j implies paths[i]
            != paths[j] by {
            if i < j {
                assert(text::precedes(paths[i], paths[j]));
                text::precedes_irreflexive(paths[i]);
            } else {
                assert(text::precedes(paths[j], paths[i]));
                text::precedes_irreflexive(paths[i]);
            }
        }
    }
    paths.unique_seq_to_set();
    assert(paths.to_set() =~= all);
    assert forall|i: int| 0 <= i < r.results@.len() implies (#[trigger] r.results@[i]).path@
        == paths[i] && m.contains_key(paths[i]) && selected(q, m[paths[i]]) && shows(
        r.results@[i],
        m[paths[i]],
        format_ts,
    ) by {
        assert(paths.contains(paths[i]));
        matching_is_complete(m, q, paths[i]);
        assert(shows(r.results@[i], m[paths[i]], format_ts));
    }
    assert forall|i: int, j: int| 0 <= i < j < r.results@.len() implies text::precedes(
        (#[trigger] r.results@[i]).path@,
        (#[trigger] r.results@[j]).path@,
    ) by {
        assert(text::precedes(paths[i], paths[j]));
    }
    if r.results@.len() == r.total {
        assert forall|path: Seq<char>|
            m.contains_key(path) && #[trigger] selected(q, m[path]) implies exists|i: int|
            0 <= i < r.results@.len() && (#[trigger] r.results@[i]).path@ == path by {
            assert(all.contains(path));
            let i = paths.index_of(path);
            assert(r.results@[i].path@ == path);
        }
    }
    assert forall|i: int, path: Seq<char>|
        0 <= i < r.results@.len() && m.contains_key(path) && #[trigger] selected(q, m[path])
            && text::precedes(path, (#[trigger] r.results@[i]).path@) implies exists|j: int|
        0 <= j < i && (#[trigger] r.results@[j]).path@ == path by {
        assert(all.contains(path));
        let j = paths.index_of(path);
        if j >= i {
            if j > i {
                assert(text::precedes(paths[i], paths[j]));
            }
            text::precedes_total(paths[i], path);
            text::precedes_irreflexive(path);
        }
        assert(r.results@[j].path@ == path);
    }
}

/// A row shows the frontmatter of its note key by key, in its JSON form, and
/// the time that the note was last changed, as it is written by `format_ts`.
pub proof fn rows_show_frontmatter_and_time<F: Fn(Instant) -> String>(
    r: QueryResponse,
    m: Map<Seq<char>, NoteData>,
    q: QueryData,
    format_ts: F,
    i: int,
    key: Seq<char>,
)
    requires
        m.dom().finite(),
        store::well_keyed(m),
        answers(r, m, q, format_ts),
        0 <= i < r.results@.len(),
    ensures
        r.results@[i].frontmatter@ is Object,
        r.results@[i].frontmatter@->Object_0.contains_key(key) <==> m[r.results@[i].path@].frontmatter.contains_key(
            key,
        ),
        m[r.results@[i].path@].frontmatter.contains_key(key) ==> r.results@[i].frontmatter@->Object_0[key]
            == json::json_of(m[r.results@[i].path@].frontmatter[key]),
        exists|t: Instant|
            t@ == m[r.results@[i].path@].last_modified && #[trigger] call_ensures(
                format_ts,
                (t,),
                r.results@[i].last_modified,
            ),
{
    let paths = matching(m, q);
    assert(shows(r.results@[i], m[paths[i]], format_ts));
    assert(paths.contains(paths[i]));
    matching_is_complete(m, q, paths[i]);
}

/// A query of one predicate: the whole vault, no limit, no order, no guard.
pub open spec fn asking(field: Seq<char>, op: Operator, value: Seq<char>) -> QueryData {
    QueryData {
        predicates: seq![PredicateData { field, op, value, number: None }],
        recursive: true,
        path_prefix: None,
        limit: None,
        order: None,
        kind_key: None,
    }
}

/// Whether a text stands in a query string as it is: nothing in it is escaped,
/// and it ends no pair.
pub open spec fn stands_as_it_is(s: Seq<char>) -> bool {
    !s.contains('%') && !s.contains('+') && !s.contains('&')
}

/// What a query string of one pair says, before the pair is taken apart.
proof fn one_pair(key: Seq<char>, v: Seq<char>)
    requires
        stands_as_it_is(key),
        stands_as_it_is(v),
        !key.contains('='),
    ensures
        parsed(key + seq!['='] + v) == (match text::after_prefix(key, "__anw-"@) {
            Some(name) => controlled(match_all(), name, v),
            None => match field_and_operator(key) {
                Err(suffix) => Err(QueryErrorData::UnknownOperator(suffix)),
                Ok((field, op)) => match value_refused(key, op, v, outside::regex_failure(v)) {
                    Some(e) => Err(e),
                    None => Ok(asking(field, op, v)),
                },
            },
        }),
{
    let pair = key + seq!['='] + v;
    text::cut_is_at_the_first(key, '=', v);
    percent::plain_text_is_itself(key, true);
    percent::plain_text_is_itself(v, true);
    assert(!pair.contains('&')) by {
        if pair.contains('&') {
            let i = pair.index_of('&');
            if i < key.len() {
                assert(key[i] == '&');
                assert(key.contains('&'));
            } else if i > key.len() {
                assert(v[i - key.len() - 1] == '&');
                assert(v.contains('&'));
            }
        }
    }
    assert forall|j: int| 0 <= j < pair.len() implies pair[j] != '&' by {
        assert(pair.contains(pair[j]));
    }
    text::before_is(pair, '&', pair.len());
    assert(text::split(pair, '&') =~= seq![pair]);
    let pairs = seq![pair];
    assert(pairs.drop_last() =~= seq![]);
    assert(pairs_applied(pairs.drop_last()) == Ok::<QueryData, QueryErrorData>(match_all()));
    assert(pairs_applied(pairs) == pair_applied(match_all(), pair));
    match field_and_operator(key) {
        Ok((field, op)) => {
            let p = PredicateData { field, op, value: v, number: None };
            assert(match_all().predicates.push(p) =~= seq![p]);
        },
        Err(_) => {},
    }
}

/// The last pair of underscores is the one before a suffix that has none.
proof fn suffix_is_cut(field: Seq<char>, suffix: Seq<char>)
    requires
        !suffix.contains('_'),
    ensures
        last_double_underscore(
            field + seq!['_', '_'] + suffix,
            (field + seq!['_', '_'] + suffix).len() as int,
        ) == Some(field.len() as int),
        (field + seq!['_', '_'] + suffix).take(field.len() as int) == field,
        (field + seq!['_', '_'] + suffix).skip(field.len() as int + 2) == suffix,
{
    let key = field + seq!['_', '_'] + suffix;
    assert(key.take(field.len() as int) =~= field);
    assert(key.skip(field.len() as int + 2) =~= suffix);
    nothing_after(key, field.len() as int, key.len() as int, suffix);
}

proof fn nothing_after(key: Seq<char>, at: int, from: int, suffix: Seq<char>)
    requires
        0 <= at <= from <= key.len(),
        key.len() == at + 2 + suffix.len(),
        key[at] == '_' && key[at + 1] == '_',
        key.skip(at + 2) == suffix,
        !suffix.contains('_'),
    ensures
        last_double_underscore(key, from) == Some(at),
    decreases from,
{
    if from > at {
        if from + 2 <= key.len() {
            assert(suffix[from + 1 - (at + 2)] == key[from + 1]);
            assert(suffix.contains(suffix[from + 1 - (at + 2)]));
        }
        nothing_after(key, at, from - 1, suffix);
    }
}

/// A key with a suffix asks by that operator: each suffix names its own, and
/// what stands before it is the field. Nothing else is set.
pub proof fn suffixes_name_the_operators(field: Seq<char>, v: Seq<char>)
    requires
        stands_as_it_is(field),
        stands_as_it_is(v),
        !field.contains('='),
        field.len() > 0,
        field[0] != '_',
    ensures
        parsed(field + seq!['_', '_'] + "in"@ + seq!['='] + v) == Ok::<QueryData, QueryErrorData>(
            asking(field, Operator::In, v),
        ),
        parsed(field + seq!['_', '_'] + "all"@ + seq!['='] + v) == Ok::<QueryData, QueryErrorData>(
            asking(field, Operator::All, v),
        ),
        parsed(field + seq!['_', '_'] + "not"@ + seq!['='] + v) == Ok::<QueryData, QueryErrorData>(
            asking(field, Operator::Not, v),
        ),
        parsed(field + seq!['_', '_'] + "prefix"@ + seq!['='] + v) == Ok::<QueryData, QueryErrorData>(
            asking(field, Operator::Prefix, v),
        ),
        parsed(field + seq!['_', '_'] + "gt"@ + seq!['='] + v) == Ok::<QueryData, QueryErrorData>(
            asking(field, Operator::Gt, v),
        ),
        parsed(field + seq!['_', '_'] + "gte"@ + seq!['='] + v) == Ok::<QueryData, QueryErrorData>(
            asking(field, Operator::Gte, v),
        ),
        parsed(field + seq!['_', '_'] + "lt"@ + seq!['='] + v) == Ok::<QueryData, QueryErrorData>(
            asking(field, Operator::Lt, v),
        ),
        parsed(field + seq!['_', '_'] + "lte"@ + seq!['='] + v) == Ok::<QueryData, QueryErrorData>(
            asking(field, Operator::Lte, v),
        ),
        v == "true"@ || v == "false"@ ==> parsed(
            field + seq!['_', '_'] + "exists"@ + seq!['='] + v,
        ) == Ok::<QueryData, QueryErrorData>(asking(field, Operator::Exists, v)),
        outside::regex_failure(v) is None ==> parsed(
            field + seq!['_', '_'] + "regex"@ + seq!['='] + v,
        ) == Ok::<QueryData, QueryErrorData>(asking(field, Operator::Regex, v)),
        outside::regex_failure(v) is Some ==> parsed(
            field + seq!['_', '_'] + "regex"@ + seq!['='] + v,
        ) is Err,
        v != "true"@ && v != "false"@ ==> parsed(
            field + seq!['_', '_'] + "exists"@ + seq!['='] + v,
        ) is Err,
{
    operators_by_name();
    suffix_asks(field, "in"@, v);
    suffix_asks(field, "all"@, v);
    suffix_asks(field, "not"@, v);
    suffix_asks(field, "prefix"@, v);
    suffix_asks(field, "gt"@, v);
    suffix_asks(field, "gte"@, v);
    suffix_asks(field, "lt"@, v);
    suffix_asks(field, "lte"@, v);
    suffix_asks(field, "exists"@, v);
    suffix_asks(field, "regex"@, v);
    numbers::truth_values_read_back(true, v);
}

proof fn suffix_asks(field: Seq<char>, suffix: Seq<char>, v: Seq<char>)
    requires
        stands_as_it_is(field),
        stands_as_it_is(v),
        !field.contains('='),
        field.len() > 0,
        field[0] != '_',
        forall|i: int| 0 <= i < suffix.len() ==> 'a' <= #[trigger] suffix[i] <= 'z',
        operator_named(suffix) is Some,
    ensures
        ({
            let op = operator_named(suffix)->0;
            let key = field + seq!['_', '_'] + suffix;
            parsed(key + seq!['='] + v) == match value_refused(
                key,
                op,
                v,
                outside::regex_failure(v),
            ) {
                Some(e) => Err(e),
                None => Ok(asking(field, op, v)),
            }
        }),
{
    assert(!suffix.contains('_')) by {
        if suffix.contains('_') {
            assert('a' <= suffix[suffix.index_of('_')] <= 'z');
        }
    }
    suffix_is_cut(field, suffix);
    letters_stand(field, suffix);
    one_pair(field + seq!['_', '_'] + suffix, v);
}

proof fn operators_by_name()
    ensures
        operator_named("in"@) == Some(Operator::In),
        forall|i: int| 0 <= i < "in"@.len() ==> 'a' <= #[trigger] "in"@[i] <= 'z',
        operator_named("all"@) == Some(Operator::All),
        forall|i: int| 0 <= i < "all"@.len() ==> 'a' <= #[trigger] "all"@[i] <= 'z',
        operator_named("not"@) == Some(Operator::Not),
        forall|i: int| 0 <= i < "not"@.len() ==> 'a' <= #[trigger] "not"@[i] <= 'z',
        operator_named("prefix"@) == Some(Operator::Prefix),
        forall|i: int| 0 <= i < "prefix"@.len() ==> 'a' <= #[trigger] "prefix"@[i] <= 'z',
        operator_named("gt"@) == Some(Operator::Gt),
        forall|i: int| 0 <= i < "gt"@.len() ==> 'a' <= #[trigger] "gt"@[i] <= 'z',
        operator_named("gte"@) == Some(Operator::Gte),
        forall|i: int| 0 <= i < "gte"@.len() ==> 'a' <= #[trigger] "gte"@[i] <= 'z',
        operator_named("lt"@) == Some(Operator::Lt),
        forall|i: int| 0 <= i < "lt"@.len() ==> 'a' <= #[trigger] "lt"@[i] <= 'z',
        operator_named("lte"@) == Some(Operator::Lte),
        forall|i: int| 0 <= i < "lte"@.len() ==> 'a' <= #[trigger] "lte"@[i] <= 'z',
        operator_named("exists"@) == Some(Operator::Exists),
        forall|i: int| 0 <= i < "exists"@.len() ==> 'a' <= #[trigger] "exists"@[i] <= 'z',
        operator_named("regex"@) == Some(Operator::Regex),
        forall|i: int| 0 <= i < "regex"@.len() ==> 'a' <= #[trigger] "regex"@[i] <= 'z',
{
    reveal_strlit("in");
    reveal_strlit("all");
    reveal_strlit("not");
    reveal_strlit("prefix");
    reveal_strlit("gt");
    reveal_strlit("gte");
    reveal_strlit("lt");
    reveal_strlit("lte");
    reveal_strlit("exists");
    reveal_strlit("regex");
    assert("in"@.len() == 2 && "in"@[0] == 'i');
    assert("all"@.len() == 3 && "all"@[0] == 'a');
    assert("not"@.len() == 3 && "not"@[0] == 'n');
    assert("prefix"@.len() == 6 && "prefix"@[0] == 'p');
    assert("gt"@.len() == 2 && "gt"@[0] == 'g');
    assert("gte"@.len() == 3 && "gte"@[0] == 'g');
    assert("lt"@.len() == 2 && "lt"@[0] == 'l');
    assert("lte"@.len() == 3 && "lte"@[0] == 'l');
    assert("exists"@.len() == 6 && "exists"@[0] == 'e');
    assert("regex"@.len() == 5 && "regex"@[0] == 'r');
}

proof fn letters_stand(field: Seq<char>, suffix: Seq<char>)
    requires
        stands_as_it_is(field),
        !field.contains('='),
        field.len() > 0,
        field[0] != '_',
        forall|i: int| 0 <= i < suffix.len() ==> 'a' <= #[trigger] suffix[i] <= 'z',
    ensures
        stands_as_it_is(field + seq!['_', '_'] + suffix),
        !(field + seq!['_', '_'] + suffix).contains('='),
        !text::has_prefix(field + seq!['_', '_'] + suffix, "__anw-"@),
{
    let key = field + seq!['_', '_'] + suffix;
    assert forall|i: int| 0 <= i < key.len() implies #[trigger] key[i] != '%' && key[i] != '+'
        && key[i] != '&' && key[i] != '=' by {
        if i < field.len() {
            assert(field.contains(field[i]));
        } else if i >= field.len() + 2 {
            assert(key[i] == suffix[i - field.len() - 2]);
        }
    }
    reveal_strlit("__anw-");
    if text::has_prefix(key, "__anw-"@) {
        assert(key.take(6)[0] == key[0]);
    }
}

/// A key without a pair of underscores asks for equality, and is the field
/// itself.
pub proof fn plain_keys_ask_for_equality(field: Seq<char>, v: Seq<char>)
    requires
        stands_as_it_is(field),
        stands_as_it_is(v),
        !field.contains('='),
        forall|i: int| 0 <= i < field.len() - 1 ==> !(#[trigger] field[i] == '_' && field[i + 1]
            == '_'),
    ensures
        parsed(field + seq!['='] + v) == Ok::<QueryData, QueryErrorData>(
            asking(field, Operator::Eq, v),
        ),
{
    reveal_strlit("__anw-");
    if text::has_prefix(field, "__anw-"@) {
        assert(field.take(6)[0] == field[0] && field.take(6)[1] == field[1]);
    }
    no_double_underscore(field, field.len() as int);
    one_pair(field, v);
}

proof fn no_double_underscore(key: Seq<char>, from: int)
    requires
        from <= key.len(),
        forall|i: int| 0 <= i < key.len() - 1 ==> !(#[trigger] key[i] == '_' && key[i + 1]
            == '_'),
    ensures
        last_double_underscore(key, from) is None,
    decreases from + 1,
{
    if from >= 0 {
        no_double_underscore(key, from - 1);
    }
}

/// What is set by a control parameter, and nothing else: the limit is the
/// number, the path loses its leading slashes, recursion is on or off, the guard
/// goes by the key, and the order is ascending unless `:desc` is written.
#[verifier::rlimit(40)]
pub proof fn controls_set_what_they_name(n: usize, path: Seq<char>, key: Seq<char>)
    requires
        stands_as_it_is(path),
        path.len() > 0 ==> path[0] != '/',
        stands_as_it_is(key),
        key.len() > 0,
        !key.contains(':'),
    ensures
        parsed("__anw-limit"@ + seq!['='] + numbers::int_text(n as int)) == Ok::<
            QueryData,
            QueryErrorData,
        >(QueryData { limit: Some(n), ..blank() }),
        parsed("__anw-path"@ + seq!['='] + path) == Ok::<QueryData, QueryErrorData>(
            QueryData { path_prefix: Some(path), ..blank() },
        ),
        parsed("__anw-path"@ + seq!['='] + (seq!['/'] + path)) == Ok::<QueryData, QueryErrorData>(
            QueryData { path_prefix: Some(path), ..blank() },
        ),
        parsed("__anw-recursive"@ + seq!['='] + "false"@) == Ok::<QueryData, QueryErrorData>(
            QueryData { recursive: false, ..blank() },
        ),
        parsed("__anw-recursive"@ + seq!['='] + "true"@) == Ok::<QueryData, QueryErrorData>(
            blank(),
        ),
        parsed("__anw-kind"@ + seq!['='] + key) == Ok::<QueryData, QueryErrorData>(
            QueryData { kind_key: Some(key), ..blank() },
        ),
        parsed("__anw-order"@ + seq!['='] + key) == Ok::<QueryData, QueryErrorData>(
            QueryData { order: Some(OrderData { key, desc: false }), ..blank() },
        ),
        parsed("__anw-order"@ + seq!['='] + (key + ":asc"@)) == Ok::<QueryData, QueryErrorData>(
            QueryData { order: Some(OrderData { key, desc: false }), ..blank() },
        ),
        parsed("__anw-order"@ + seq!['='] + (key + ":desc"@)) == Ok::<QueryData, QueryErrorData>(
            QueryData { order: Some(OrderData { key, desc: true }), ..blank() },
        ),
{
    reveal_strlit("__anw-");
    control_named("__anw-limit"@, "limit"@);
    control_named("__anw-path"@, "path"@);
    control_named("__anw-recursive"@, "recursive"@);
    control_named("__anw-kind"@, "kind"@);
    control_named("__anw-order"@, "order"@);
    reveal_strlit("limit");
    reveal_strlit("path");
    reveal_strlit("recursive");
    reveal_strlit("kind");
    reveal_strlit("order");
    assert("limit"@[0] == 'l' && "path"@[0] == 'p' && "recursive"@[0] == 'r' && "kind"@[0] == 'k'
        && "order"@[0] == 'o');
    let digits = numbers::int_text(n as int);
    numbers::written_integers_read_back(n as int, 0, usize::MAX as int);
    numbers::written_numbers_read_back(n as nat);
    assert(stands_as_it_is(digits));
    one_pair("__anw-limit"@, digits);
    one_pair("__anw-path"@, path);
    let slashed = seq!['/'] + path;
    assert forall|i: int| 0 <= i < slashed.len() implies #[trigger] slashed[i] != '%' && slashed[i]
        != '+' && slashed[i] != '&' by {
        if i > 0 {
            assert(path.contains(path[i - 1]));
        }
    }
    one_pair("__anw-path"@, slashed);
    assert(slashed.drop_first() =~= path);
    assert(text::without_leading(path, '/') == path);
    assert(text::without_leading(slashed, '/') == path);
    reveal_strlit("true");
    reveal_strlit("false");
    assert("true"@.len() == 4 && "false"@.len() == 5);
    one_pair("__anw-recursive"@, "false"@);
    one_pair("__anw-recursive"@, "true"@);
    one_pair("__anw-kind"@, key);
    reveal_strlit(":asc");
    reveal_strlit(":desc");
    let up = key + ":asc"@;
    let down = key + ":desc"@;
    assert forall|i: int| 0 <= i < up.len() implies #[trigger] up[i] != '%' && up[i] != '+' && up[i]
        != '&' by {
        if i < key.len() {
            assert(key.contains(key[i]));
        }
    }
    assert forall|i: int| 0 <= i < down.len() implies #[trigger] down[i] != '%' && down[i] != '+'
        && down[i] != '&' by {
        if i < key.len() {
            assert(key.contains(key[i]));
        }
    }
    one_pair("__anw-order"@, key);
    one_pair("__anw-order"@, up);
    one_pair("__anw-order"@, down);
    text::prefix_and_suffix_come_off(":asc"@, key, up);
    text::prefix_and_suffix_come_off(":desc"@, key, down);
    if text::has_suffix(key, ":desc"@) {
        assert(key.skip(key.len() - 5)[0] == ':');
        assert(key.contains(key[key.len() - 5]));
    }
    if text::has_suffix(key, ":asc"@) {
        assert(key.skip(key.len() - 4)[0] == ':');
        assert(key.contains(key[key.len() - 4]));
    }
    if text::has_suffix(up, ":desc"@) {
        assert(up.skip(up.len() - 5)[1] == ':');
        assert(up.skip(up.len() - 5)[1] == ":desc"@[1]);
    }
}

/// A query that asks nothing: the whole vault, no limit, no order, no guard.
pub open spec fn blank() -> QueryData {
    QueryData {
        predicates: seq![],
        recursive: true,
        path_prefix: None,
        limit: None,
        order: None,
        kind_key: None,
    }
}

proof fn control_named(key: Seq<char>, name: Seq<char>)
    requires
        (key, name) == ("__anw-limit"@, "limit"@) || (key, name) == ("__anw-path"@, "path"@) || (
        key,
        name,
    ) == ("__anw-recursive"@, "recursive"@) || (key, name) == ("__anw-kind"@, "kind"@) || (
        key,
        name,
    ) == ("__anw-order"@, "order"@),
    ensures
        stands_as_it_is(key),
        !key.contains('='),
        text::after_prefix(key, "__anw-"@) == Some(name),
{
    reveal_strlit("__anw-");
    reveal_strlit("__anw-limit");
    reveal_strlit("__anw-path");
    reveal_strlit("__anw-recursive");
    reveal_strlit("__anw-kind");
    reveal_strlit("__anw-order");
    reveal_strlit("limit");
    reveal_strlit("path");
    reveal_strlit("recursive");
    reveal_strlit("kind");
    reveal_strlit("order");
    assert(key =~= "__anw-"@ + name);
    text::prefix_and_suffix_come_off("__anw-"@, name, key);
    assert forall|i: int| 0 <= i < key.len() implies #[trigger] key[i] != '%' && key[i] != '+'
        && key[i] != '&' && key[i] != '=' by {}
}

/// The empty query string asks nothing, and so matches every note.
pub proof fn empty_query_asks_nothing(note: NoteData)
    ensures
        parsed(seq![]) == Ok::<QueryData, QueryErrorData>(blank()),
        selected(blank(), note),
{
    let none: Seq<char> = seq![];
    text::before_is(none, '&', 0);
    let pairs = text::split(none, '&');
    assert(pairs =~= seq![none]);
    assert(pairs.drop_last() =~= seq![]);
    assert(pairs_applied(pairs.drop_last()) == Ok::<QueryData, QueryErrorData>(match_all()));
    assert(match_all() =~= blank());
}

/// What one query says and another adds: all predicates of both, in order, and
/// of each other setting the one that is set last.
pub open spec fn adds_up(a: QueryData, b: QueryData, q: QueryData) -> bool {
    &&& q.predicates == a.predicates + b.predicates
    &&& q.limit == if b.limit is Some {
        b.limit
    } else {
        a.limit
    }
    &&& q.path_prefix == if b.path_prefix is Some {
        b.path_prefix
    } else {
        a.path_prefix
    }
    &&& q.order == if b.order is Some {
        b.order
    } else {
        a.order
    }
    &&& q.kind_key == if b.kind_key is Some {
        b.kind_key
    } else {
        a.kind_key
    }
    &&& !b.recursive ==> !q.recursive
    &&& a.recursive && b.recursive ==> q.recursive
}

proof fn one_more_control(
    a: QueryData,
    y: QueryData,
    x: QueryData,
    name: Seq<char>,
    v: Seq<char>,
)
    requires
        adds_up(a, y, x),
        controlled(y, name, v) is Ok,
    ensures
        controlled(x, name, v) is Ok,
        adds_up(a, controlled(y, name, v)->Ok_0, controlled(x, name, v)->Ok_0),
{
}

#[verifier::rlimit(40)]
proof fn one_more_pair(a: QueryData, y: QueryData, x: QueryData, pair: Seq<char>)
    requires
        adds_up(a, y, x),
    ensures
        pair_applied(x, pair) is Ok <==> pair_applied(y, pair) is Ok,
        pair_applied(y, pair) is Err ==> pair_applied(x, pair)->Err_0 == pair_applied(
            y,
            pair,
        )->Err_0,
        pair_applied(y, pair) is Ok ==> adds_up(
            a,
            pair_applied(y, pair)->Ok_0,
            pair_applied(x, pair)->Ok_0,
        ),
{
    pairs_are_judged_alone(x, y, pair);
    if pair.len() > 0 && pair_applied(y, pair) is Ok {
        let (k, v) = match text::cut(pair, '=') {
            Some(kv) => kv,
            None => (pair, seq![]),
        };
        let key = percent::decoded(k, true)->0;
        let value = percent::decoded(v, true)->0;
        match text::after_prefix(key, "__anw-"@) {
            Some(name) => {
                one_more_control(a, y, x, name, value);
            },
            None => {
                let (field, op) = field_and_operator(key)->Ok_0;
                let p = PredicateData { field, op, value, number: None };
                assert(x.predicates.push(p) =~= a.predicates + y.predicates.push(p));
            },
        }
    }
}

proof fn more_pairs(a: Seq<Seq<char>>, b: Seq<Seq<char>>)
    requires
        pairs_applied(a) is Ok,
    ensures
        pairs_applied(a + b) is Ok <==> pairs_applied(b) is Ok,
        pairs_applied(b) is Ok ==> adds_up(
            pairs_applied(a)->Ok_0,
            pairs_applied(b)->Ok_0,
            pairs_applied(a + b)->Ok_0,
        ),
        pairs_applied(b) is Err ==> pairs_applied(a + b)->Err_0 == pairs_applied(b)->Err_0,
    decreases b.len(),
{
    if b.len() == 0 {
        assert(a + b =~= a);
        assert(pairs_applied(a)->Ok_0.predicates + match_all().predicates =~= pairs_applied(
            a,
        )->Ok_0.predicates);
        assert(pairs_applied(b) == Ok::<QueryData, QueryErrorData>(match_all()));
    } else {
        let rest = b.drop_last();
        let pair = b.last();
        more_pairs(a, rest);
        assert((a + b).drop_last() =~= a + rest);
        assert((a + b).last() == pair);
        if pairs_applied(rest) is Ok {
            one_more_pair(
                pairs_applied(a)->Ok_0,
                pairs_applied(rest)->Ok_0,
                pairs_applied(a + rest)->Ok_0,
                pair,
            );
        }
    }
}

/// Two query strings with an ampersand between them are one query: the
/// predicates of both, and of each other setting the one that is set last. It
/// is refused as soon as one of the two is.
pub proof fn ampersands_join_queries(a: Seq<char>, b: Seq<char>)
    ensures
        parsed(a + seq!['&'] + b) is Ok <==> parsed(a) is Ok && parsed(b) is Ok,
        parsed(a) is Ok && parsed(b) is Ok ==> adds_up(
            parsed(a)->Ok_0,
            parsed(b)->Ok_0,
            parsed(a + seq!['&'] + b)->Ok_0,
        ),
        parsed(a) is Err ==> parsed(a + seq!['&'] + b)->Err_0 == parsed(a)->Err_0,
        parsed(a) is Ok && parsed(b) is Err ==> parsed(a + seq!['&'] + b)->Err_0 == parsed(
            b,
        )->Err_0,
{
    let x = text::split(a, '&');
    let y = text::split(b, '&');
    let all = a + seq!['&'] + b;
    text::split_pieces_join_again(a, '&');
    text::split_pieces_join_again(b, '&');
    text::joining_in_lots(x, y, seq!['&'], seq![]);
    assert forall|i: int| 0 <= i < (x + y).len() implies !(#[trigger] (x + y)[i]).contains('&') by {
        if i < x.len() {
            assert((x + y)[i] == x[i]);
        } else {
            assert((x + y)[i] == y[i - x.len()]);
        }
    }
    text::joined_pieces_split_again(x + y, '&');
    assert(text::joined(x + y, seq!['&']) == all);
    if parsed(a) is Ok {
        more_pairs(x, y);
    } else {
        assert((x + y).take(x.len() as int) =~= x);
        refused_stays(x + y, x.len() as int, parsed(a)->Err_0);
        assert((x + y).take((x + y).len() as int) =~= x + y);
    }
}

/// The key that merged notes are ordered by, if there is one.
pub open spec fn ordered_by(q: QueryData) -> Option<Seq<char>> {
    match q.order {
        Some(o) => Some(o.key),
        None => None,
    }
}

/// The value that a note has to be ordered by.
pub open spec fn order_value(q: QueryData, note: NoteData) -> Option<Data> {
    match ordered_by(q) {
        Some(key) => looked_up(note.frontmatter, key),
        None => None,
    }
}

/// Whether a note is held and selected.
pub open spec fn is_picked(m: Map<Seq<char>, NoteData>, q: QueryData, path: Seq<char>) -> bool {
    m.contains_key(path) && selected(q, m[path])
}

/// A merge without a limit is made of the selected notes, each once under its
/// source, in some order, with an empty line between each two. A limit keeps the
/// first of them.
pub proof fn merges_are_made_of_the_selected_notes(
    m: Map<Seq<char>, NoteData>,
    q: QueryData,
    doc: Seq<char>,
)
    requires
        m.dom().finite(),
        store::well_keyed(m),
        is_merge(doc, m, q),
    ensures
        exists|order: Seq<Seq<char>>| #[trigger] merges_in_order(m, q, doc, order),
{
    broadcast use vstd::seq_lib::group_to_multiset_ensures;
    let ordered = ordered_fragments(m, q);
    let found = matched_fragments(m, q);
    let paths = matching(m, q);
    merge_is_in_order(m, q);
    fragments_ascend(m, q);
    fragments::ascending_paths_differ(found);
    fragments::same_fragments_differ(found, ordered);
    let order = ordered.map_values(|f: FragmentData| f.path);
    assert forall|i: int| 0 <= i < ordered.len() implies is_picked(m, q, (#[trigger] ordered[i]).path)
        && ordered[i].body == m[ordered[i].path].body by {
        assert(ordered.contains(ordered[i]));
        assert(found.to_multiset().contains(ordered[i]));
        assert(found.contains(ordered[i]));
        let j = found.index_of(ordered[i]);
        assert(paths.contains(paths[j]));
        matching_is_complete(m, q, paths[j]);
    }
    assert(order.no_duplicates()) by {
        assert forall|i: int, j: int|
            0 <= i < order.len() && 0 <= j < order.len() && i != j implies order[i]
            != order[j] by {
            if i < j {
                assert(ordered[i].path != ordered[j].path);
            } else {
                assert(ordered[j].path != ordered[i].path);
            }
        }
    }
    assert forall|path: Seq<char>| #[trigger] order.contains(path) <==> is_picked(m, q, path) by {
        if order.contains(path) {
            let i = order.index_of(path);
            assert(ordered[i].path == path);
        }
        if is_picked(m, q, path) {
            matching_is_complete(m, q, path);
            let j = paths.index_of(path);
            let f = found[j];
            assert(f == fragment_of(q, m[path]));
            assert(found.contains(f));
            assert(ordered.to_multiset().contains(f));
            assert(ordered.contains(f));
            let i = ordered.index_of(f);
            assert(order[i] == path);
        }
    }
    let k = limited(ordered.len(), q.limit) as int;
    let kept = ordered.take(k);
    let texts = order.take(k).map_values(
        |path: Seq<char>| fragments::with_source(path, m[path].body),
    );
    assert(kept.map_values(|f: FragmentData| fragments::fragment_text(f)) =~= texts) by {
        assert forall|i: int| 0 <= i < k implies fragments::fragment_text(#[trigger] kept[i])
            == texts[i] by {
            assert(kept[i] == ordered[i]);
        }
    }
    assert(merges_in_order(m, q, doc, order));
}

/// Whether a document is the selected notes in an order of their paths, cut to
/// the limit.
pub open spec fn merges_in_order(
    m: Map<Seq<char>, NoteData>,
    q: QueryData,
    doc: Seq<char>,
    order: Seq<Seq<char>>,
) -> bool {
    &&& order.no_duplicates()
    &&& forall|path: Seq<char>| #[trigger] order.contains(path) <==> is_picked(m, q, path)
    &&& doc == text::joined(
        order.take(
            match q.limit {
                Some(n) => if n < order.len() {
                    n as int
                } else {
                    order.len() as int
                },
                None => order.len() as int,
            },
        ).map_values(|path: Seq<char>| fragments::with_source(path, m[path].body)),
        "\n\n"@,
    )
}

proof fn picked_notes_stand_in_turn(
    m: Map<Seq<char>, NoteData>,
    q: QueryData,
    doc: Seq<char>,
    a: Seq<char>,
    b: Seq<char>,
)
    requires
        m.dom().finite(),
        store::well_keyed(m),
        q.limit is None,
        is_merge(doc, m, q),
        is_picked(m, q, a),
        is_picked(m, q, b),
        fragments::consistent(matched_fragments(m, q).to_multiset(), descends(q)),
        fragments::fragment_order(fragment_of(q, m[a]), fragment_of(q, m[b]), descends(q))
            == Order::Less,
    ensures
        fragments::stand_in_turn(
            doc,
            fragments::with_source(a, m[a].body),
            fragments::with_source(b, m[b].body),
        ),
{
    let found = matched_fragments(m, q);
    let paths = matching(m, q);
    matching_is_complete(m, q, a);
    matching_is_complete(m, q, b);
    let x = fragment_of(q, m[a]);
    let y = fragment_of(q, m[b]);
    assert(found[paths.index_of(a)] == x);
    assert(found[paths.index_of(b)] == y);
    fragments::lesser_fragments_stand_first(found, descends(q), x, y);
    let s = ordered_fragments(m, q);
    let (i, j) = choose|i: int, j: int|
        0 <= i < j < s.len() && #[trigger] s[i] == x && #[trigger] s[j] == y;
    fragments::fragments_stand_in_turn(s, i, j);
    assert(s.take(s.len() as int) =~= s);
}

proof fn order_values_are_of_the_notes(m: Map<Seq<char>, NoteData>, q: QueryData, i: int)
    requires
        m.dom().finite(),
        store::well_keyed(m),
        0 <= i < matched_fragments(m, q).len(),
    ensures
        is_picked(m, q, matched_fragments(m, q)[i].path),
        matched_fragments(m, q)[i].order == order_value(
            q,
            m[matched_fragments(m, q)[i].path],
        ),
{
    let paths = matching(m, q);
    assert(paths.contains(paths[i]));
    matching_is_complete(m, q, paths[i]);
}

/// Notes whose order values are date-times are merged in time: the one of the
/// earlier instant stands first if the order ascends, and last if it descends.
/// This is where every selected note has a date-time to be ordered by, or
/// nothing.
pub proof fn date_times_are_merged_in_time(
    m: Map<Seq<char>, NoteData>,
    q: QueryData,
    doc: Seq<char>,
    a: Seq<char>,
    b: Seq<char>,
    s: dates::DateTimeData,
    t: dates::DateTimeData,
)
    requires
        m.dom().finite(),
        store::well_keyed(m),
        q.limit is None,
        is_merge(doc, m, q),
        forall|path: Seq<char>| #[trigger]
            is_picked(m, q, path) ==> order_value(q, m[path]) is None || order_value(
                q,
                m[path],
            )->0 is DateTime,
        is_picked(m, q, a),
        is_picked(m, q, b),
        order_value(q, m[a]) == Some(Data::DateTime(s)),
        order_value(q, m[b]) == Some(Data::DateTime(t)),
        s.at.0 < t.at.0 || (s.at.0 == t.at.0 && s.at.1 < t.at.1),
    ensures
        !q.order->0.desc ==> fragments::stand_in_turn(
            doc,
            fragments::with_source(a, m[a].body),
            fragments::with_source(b, m[b].body),
        ),
        q.order->0.desc ==> fragments::stand_in_turn(
            doc,
            fragments::with_source(b, m[b].body),
            fragments::with_source(a, m[a].body),
        ),
{
    let found = matched_fragments(m, q);
    assert forall|i: int| 0 <= i < found.len() implies (#[trigger] found[i]).order is None
        || found[i].order->0 is DateTime by {
        order_values_are_of_the_notes(m, q, i);
    }
    fragments::dates_are_consistent(found, descends(q));
    if q.order->0.desc {
        picked_notes_stand_in_turn(m, q, doc, b, a);
    } else {
        picked_notes_stand_in_turn(m, q, doc, a, b);
    }
}

/// Notes whose order values are dates are merged by their days.
pub proof fn dates_are_merged_by_day(
    m: Map<Seq<char>, NoteData>,
    q: QueryData,
    doc: Seq<char>,
    a: Seq<char>,
    b: Seq<char>,
    s: (i32, u32, u32),
    t: (i32, u32, u32),
)
    requires
        m.dom().finite(),
        store::well_keyed(m),
        q.limit is None,
        is_merge(doc, m, q),
        forall|path: Seq<char>| #[trigger]
            is_picked(m, q, path) ==> order_value(q, m[path]) is None || order_value(
                q,
                m[path],
            )->0 is Date,
        is_picked(m, q, a),
        is_picked(m, q, b),
        order_value(q, m[a]) == Some(Data::Date(s.0, s.1, s.2)),
        order_value(q, m[b]) == Some(Data::Date(t.0, t.1, t.2)),
        dates::valid_date(s.0, s.1, s.2),
        dates::valid_date(t.0, t.1, t.2),
        dates::day_number(s) < dates::day_number(t),
    ensures
        !q.order->0.desc ==> fragments::stand_in_turn(
            doc,
            fragments::with_source(a, m[a].body),
            fragments::with_source(b, m[b].body),
        ),
        q.order->0.desc ==> fragments::stand_in_turn(
            doc,
            fragments::with_source(b, m[b].body),
            fragments::with_source(a, m[a].body),
        ),
{
    let found = matched_fragments(m, q);
    assert forall|i: int| 0 <= i < found.len() implies (#[trigger] found[i]).order is None
        || found[i].order->0 is Date by {
        order_values_are_of_the_notes(m, q, i);
    }
    fragments::dates_are_consistent(found, descends(q));
    dates::dates_are_ordered_by_day(s, t);
    dates::dates_are_ordered_by_day(t, s);
    if q.order->0.desc {
        picked_notes_stand_in_turn(m, q, doc, b, a);
    } else {
        picked_notes_stand_in_turn(m, q, doc, a, b);
    }
}

/// Notes whose order values are integers are merged by them.
pub proof fn integers_are_merged_by_size(
    m: Map<Seq<char>, NoteData>,
    q: QueryData,
    doc: Seq<char>,
    a: Seq<char>,
    b: Seq<char>,
    s: i64,
    t: i64,
)
    requires
        m.dom().finite(),
        store::well_keyed(m),
        q.limit is None,
        is_merge(doc, m, q),
        forall|path: Seq<char>| #[trigger]
            is_picked(m, q, path) ==> order_value(q, m[path]) is None || order_value(
                q,
                m[path],
            )->0 is Int,
        is_picked(m, q, a),
        is_picked(m, q, b),
        order_value(q, m[a]) == Some(Data::Int(s)),
        order_value(q, m[b]) == Some(Data::Int(t)),
        s < t,
    ensures
        !q.order->0.desc ==> fragments::stand_in_turn(
            doc,
            fragments::with_source(a, m[a].body),
            fragments::with_source(b, m[b].body),
        ),
        q.order->0.desc ==> fragments::stand_in_turn(
            doc,
            fragments::with_source(b, m[b].body),
            fragments::with_source(a, m[a].body),
        ),
{
    let found = matched_fragments(m, q);
    assert forall|i: int| 0 <= i < found.len() implies (#[trigger] found[i]).order is None
        || found[i].order->0 is Int by {
        order_values_are_of_the_notes(m, q, i);
    }
    fragments::integers_are_consistent(found, descends(q));
    if q.order->0.desc {
        picked_notes_stand_in_turn(m, q, doc, b, a);
    } else {
        picked_notes_stand_in_turn(m, q, doc, a, b);
    }
}

/// Notes whose order values are doubles, all of them numbers, are merged by
/// them: here of doubles that are not negative, which grow with their bits.
pub proof fn doubles_are_merged_by_size(
    m: Map<Seq<char>, NoteData>,
    q: QueryData,
    doc: Seq<char>,
    a: Seq<char>,
    b: Seq<char>,
    s: value::FloatData,
    t: value::FloatData,
)
    requires
        m.dom().finite(),
        store::well_keyed(m),
        q.limit is None,
        is_merge(doc, m, q),
        forall|path: Seq<char>| #[trigger]
            is_picked(m, q, path) ==> match order_value(q, m[path]) {
                None => true,
                Some(Data::Float(f)) => f.bits <= 0x7ff0_0000_0000_0000,
                _ => false,
            },
        is_picked(m, q, a),
        is_picked(m, q, b),
        order_value(q, m[a]) == Some(Data::Float(s)),
        order_value(q, m[b]) == Some(Data::Float(t)),
        s.bits < t.bits,
    ensures
        !q.order->0.desc ==> fragments::stand_in_turn(
            doc,
            fragments::with_source(a, m[a].body),
            fragments::with_source(b, m[b].body),
        ),
        q.order->0.desc ==> fragments::stand_in_turn(
            doc,
            fragments::with_source(b, m[b].body),
            fragments::with_source(a, m[a].body),
        ),
{
    let found = matched_fragments(m, q);
    assert forall|i: int| 0 <= i < found.len() implies (#[trigger] found[i]).order is None || (
    found[i].order->0 is Float && !value::is_nan(found[i].order->0->Float_0.bits)) by {
        order_values_are_of_the_notes(m, q, i);
    }
    fragments::doubles_are_consistent(found, descends(q));
    if q.order->0.desc {
        picked_notes_stand_in_turn(m, q, doc, b, a);
    } else {
        picked_notes_stand_in_turn(m, q, doc, a, b);
    }
}

/// Notes whose order values are texts are merged in the order of texts.
pub proof fn texts_are_merged_in_order(
    m: Map<Seq<char>, NoteData>,
    q: QueryData,
    doc: Seq<char>,
    a: Seq<char>,
    b: Seq<char>,
    s: Seq<char>,
    t: Seq<char>,
)
    requires
        m.dom().finite(),
        store::well_keyed(m),
        q.limit is None,
        is_merge(doc, m, q),
        forall|path: Seq<char>| #[trigger]
            is_picked(m, q, path) ==> order_value(q, m[path]) is None || order_value(
                q,
                m[path],
            )->0 is Text,
        is_picked(m, q, a),
        is_picked(m, q, b),
        order_value(q, m[a]) == Some(Data::Text(s)),
        order_value(q, m[b]) == Some(Data::Text(t)),
        text::precedes(s, t),
    ensures
        !q.order->0.desc ==> fragments::stand_in_turn(
            doc,
            fragments::with_source(a, m[a].body),
            fragments::with_source(b, m[b].body),
        ),
        q.order->0.desc ==> fragments::stand_in_turn(
            doc,
            fragments::with_source(b, m[b].body),
            fragments::with_source(a, m[a].body),
        ),
{
    let found = matched_fragments(m, q);
    assert forall|i: int| 0 <= i < found.len() implies (#[trigger] found[i]).order is None
        || found[i].order->0 is Text by {
        order_values_are_of_the_notes(m, q, i);
    }
    fragments::texts_are_consistent(found, descends(q));
    text::precedes_irreflexive(s);
    text::precedes_total(s, t);
    if q.order->0.desc {
        picked_notes_stand_in_turn(m, q, doc, b, a);
    } else {
        picked_notes_stand_in_turn(m, q, doc, a, b);
    }
}

/// A note that has nothing to be ordered by stands after those that have, in
/// either direction; and notes with nothing to be ordered by stand in the order
/// of their paths, in either direction. Here of integers.
pub proof fn notes_without_a_value_come_last(
    m: Map<Seq<char>, NoteData>,
    q: QueryData,
    doc: Seq<char>,
    a: Seq<char>,
    b: Seq<char>,
)
    requires
        m.dom().finite(),
        store::well_keyed(m),
        q.limit is None,
        is_merge(doc, m, q),
        forall|path: Seq<char>| #[trigger]
            is_picked(m, q, path) ==> order_value(q, m[path]) is None || order_value(
                q,
                m[path],
            )->0 is Int,
        is_picked(m, q, a),
        is_picked(m, q, b),
        order_value(q, m[b]) is None,
        order_value(q, m[a]) is Some || text::precedes(a, b),
    ensures
        fragments::stand_in_turn(
            doc,
            fragments::with_source(a, m[a].body),
            fragments::with_source(b, m[b].body),
        ),
{
    let found = matched_fragments(m, q);
    assert forall|i: int| 0 <= i < found.len() implies (#[trigger] found[i]).order is None
        || found[i].order->0 is Int by {
        order_values_are_of_the_notes(m, q, i);
    }
    fragments::integers_are_consistent(found, descends(q));
    text::precedes_irreflexive(a);
    picked_notes_stand_in_turn(m, q, doc, a, b);
}

/// Notes with equal order values stand in ascending order of their paths,
/// whichever way the order goes. Here of integers.
pub proof fn equal_values_go_by_path(
    m: Map<Seq<char>, NoteData>,
    q: QueryData,
    doc: Seq<char>,
    a: Seq<char>,
    b: Seq<char>,
)
    requires
        m.dom().finite(),
        store::well_keyed(m),
        q.limit is None,
        is_merge(doc, m, q),
        forall|path: Seq<char>| #[trigger]
            is_picked(m, q, path) ==> order_value(q, m[path]) is None || order_value(
                q,
                m[path],
            )->0 is Int,
        is_picked(m, q, a),
        is_picked(m, q, b),
        order_value(q, m[a]) == order_value(q, m[b]),
        text::precedes(a, b),
    ensures
        fragments::stand_in_turn(
            doc,
            fragments::with_source(a, m[a].body),
            fragments::with_source(b, m[b].body),
        ),
{
    let found = matched_fragments(m, q);
    assert forall|i: int| 0 <= i < found.len() implies (#[trigger] found[i]).order is None
        || found[i].order->0 is Int by {
        order_values_are_of_the_notes(m, q, i);
    }
    fragments::integers_are_consistent(found, descends(q));
    text::precedes_irreflexive(a);
    picked_notes_stand_in_turn(m, q, doc, a, b);
}

/// A merge is refused exactly if the query names a key for the guard, and some
/// selected note lacks it or two of them read differently there. The limit does
/// not count.
pub proof fn guards_look_at_every_selected_note(m: Map<Seq<char>, NoteData>, q: QueryData)
    requires
        m.dom().finite(),
        store::well_keyed(m),
    ensures
        q.kind_key is None ==> !merge_refused(m, q),
        q.kind_key matches Some(key) ==> (merge_refused(m, q) <==> (exists|path: Seq<char>| #[trigger]
            is_picked(m, q, path) && looked_up(m[path].frontmatter, key) is None) || (exists|
            a: Seq<char>,
            b: Seq<char>,
        | #[trigger]
            is_picked(m, q, a) && #[trigger] is_picked(m, q, b) && looked_up(m[a].frontmatter, key)
                is Some && looked_up(m[b].frontmatter, key) is Some && value::canonical_text(
                looked_up(m[a].frontmatter, key)->0,
            ) != value::canonical_text(looked_up(m[b].frontmatter, key)->0))),
{
    if let Some(key) = q.kind_key {
        let s = matched_fragments(m, q);
        let paths = matching(m, q);
        fragments::guard_asks_for_one_value(s);
        assert forall|i: int| 0 <= i < s.len() implies is_picked(m, q, (#[trigger] s[i]).path)
            && s[i].kind == looked_up(m[s[i].path].frontmatter, key) by {
            assert(paths.contains(paths[i]));
            matching_is_complete(m, q, paths[i]);
        }
        assert forall|path: Seq<char>| #[trigger] is_picked(m, q, path) implies exists|i: int|
            0 <= i < s.len() && (#[trigger] s[i]).path == path by {
            matching_is_complete(m, q, path);
            let i = paths.index_of(path);
            assert(s[i].path == path);
        }
        if exists|i: int| 0 <= i < s.len() && (#[trigger] s[i]).kind is None {
            let i = choose|i: int| 0 <= i < s.len() && (#[trigger] s[i]).kind is None;
            assert(is_picked(m, q, s[i].path));
        }
        if exists|i: int, j: int|
            0 <= i < s.len() && 0 <= j < s.len() && (#[trigger] s[i]).kind is Some && (
            #[trigger] s[j]).kind is Some && value::canonical_text(s[i].kind->0)
                != value::canonical_text(s[j].kind->0) {
            let (i, j) = choose|i: int, j: int|
                0 <= i < s.len() && 0 <= j < s.len() && (#[trigger] s[i]).kind is Some && (
                #[trigger] s[j]).kind is Some && value::canonical_text(s[i].kind->0)
                    != value::canonical_text(s[j].kind->0);
            assert(is_picked(m, q, s[i].path) && is_picked(m, q, s[j].path));
        }
    }
}

/// A key without an equals sign is asked for with an empty value: it says the
/// same with the sign behind it as without.
pub proof fn keys_alone_have_an_empty_value(key: Seq<char>)
    requires
        key.len() > 0,
        !key.contains('&'),
        !key.contains('='),
    ensures
        parsed(key) == parsed(key + seq!['=']),
{
    let with = key + seq!['='];
    let none = Seq::<char>::empty();
    assert(with + none =~= with);
    text::cut_is_at_the_first(key, '=', none);
    assert(!with.contains('&')) by {
        if with.contains('&') {
            let i = with.index_of('&');
            assert(with[i] == '&');
            if i < key.len() {
                assert(key[i] == '&');
            }
        }
    }
    lone_pair(key);
    lone_pair(with);
}

proof fn lone_pair(pair: Seq<char>)
    requires
        !pair.contains('&'),
    ensures
        parsed(pair) == pair_applied(match_all(), pair),
{
    assert forall|j: int| 0 <= j < pair.len() implies pair[j] != '&' by {
        assert(pair.contains(pair[j]));
    }
    text::before_is(pair, '&', pair.len());
    let pairs = text::split(pair, '&');
    assert(pairs =~= seq![pair]);
    assert(pairs.drop_last() =~= seq![]);
    assert(pairs_applied(seq![]) == Ok::<QueryData, QueryErrorData>(match_all()));
}

/// A limit that is no number, a recursion that is neither on nor off, an empty
/// guard and an empty order are refused as bad controls.
pub proof fn improper_controls_are_refused(v: Seq<char>)
    requires
        stands_as_it_is(v),
    ensures
        (v.len() == 0 || exists|i: int| 1 <= i < v.len() && !('0' <= #[trigger] v[i] <= '9')) ==> (
        parsed("__anw-limit"@ + seq!['='] + v) matches Err(QueryErrorData::BadControl(_))),
        v != "true"@ && v != "false"@ ==> (parsed("__anw-recursive"@ + seq!['='] + v) matches Err(
            QueryErrorData::BadControl(_),
        )),
        v.len() == 0 ==> (parsed("__anw-kind"@ + seq!['='] + v) matches Err(
            QueryErrorData::BadControl(_),
        )),
        v.len() == 0 ==> (parsed("__anw-order"@ + seq!['='] + v) matches Err(
            QueryErrorData::BadControl(_),
        )),
{
    control_named("__anw-limit"@, "limit"@);
    control_named("__anw-recursive"@, "recursive"@);
    control_named("__anw-kind"@, "kind"@);
    control_named("__anw-order"@, "order"@);
    one_pair("__anw-limit"@, v);
    one_pair("__anw-recursive"@, v);
    one_pair("__anw-kind"@, v);
    one_pair("__anw-order"@, v);
    reveal_strlit("limit");
    reveal_strlit("path");
    reveal_strlit("recursive");
    reveal_strlit("kind");
    reveal_strlit("order");
    reveal_strlit(":asc");
    reveal_strlit(":desc");
    assert("limit"@[0] == 'l' && "path"@[0] == 'p' && "recursive"@[0] == 'r' && "kind"@[0] == 'k'
        && "order"@[0] == 'o');
    numbers::only_digits_are_read(v, 0, usize::MAX as int);
}

}
