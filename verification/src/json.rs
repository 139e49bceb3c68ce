//! JSON trees, and the JSON form of frontmatter.

use vstd::prelude::*;

use crate::dates;
use crate::lists;
use crate::outside;
use crate::sorted;
use crate::sorted::SortedMap;
use crate::value;
use crate::value::{Data, Float, FloatData, Frontmatter, Value};

verus! {

broadcast use sorted::value_is_smaller;

/// A JSON document.
#[derive(Debug, PartialEq)]
pub enum Json {
    Null,
    Bool(bool),
    /// An integer: those of frontmatter fit in 64 bits with their sign, sizes
    /// and counts in 64 bits without one.
    Int(i128),
    Float(Float),
    String(String),
    Array(Vec<Json>),
    /// An object whose members stand in ascending order.
    Object(SortedMap<Json>),
    /// An object whose members stand in the order given.
    Record(Vec<(String, Json)>),
}

/// What a [`Json`] says.
pub enum JsonData {
    Null,
    Bool(bool),
    Int(i128),
    Float(FloatData),
    Text(Seq<char>),
    Array(Seq<JsonData>),
    Object(Map<Seq<char>, JsonData>),
    Record(Seq<(Seq<char>, JsonData)>),
}

impl Json {
    /// What the document says.
    pub open spec fn data(self) -> JsonData
        decreases self,
    {
        match self {
            Json::Null => JsonData::Null,
            Json::Bool(b) => JsonData::Bool(b),
            Json::Int(i) => JsonData::Int(i),
            Json::Float(f) => JsonData::Float(f@),
            Json::String(s) => JsonData::Text(s@),
            Json::Array(items) => JsonData::Array(
                Seq::new(
                    items@.len(),
                    |i: int|
                        if 0 <= i < items@.len() {
                            items@[i].data()
                        } else {
                            JsonData::Null
                        },
                ),
            ),
            Json::Object(m) => JsonData::Object(
                Map::new(
                    |k: Seq<char>| m@.contains_key(k),
                    |k: Seq<char>|
                        if m@.contains_key(k) {
                            m@[k].data()
                        } else {
                            JsonData::Null
                        },
                ),
            ),
            Json::Record(items) => JsonData::Record(
                Seq::new(
                    items@.len(),
                    |i: int|
                        if 0 <= i < items@.len() {
                            (items@[i].0@, items@[i].1.data())
                        } else {
                            (seq![], JsonData::Null)
                        },
                ),
            ),
        }
    }
}

impl View for Json {
    type V = JsonData;

    open spec fn view(&self) -> JsonData {
        self.data()
    }
}

/// What the members of an object say, by name.
pub open spec fn members(m: Map<Seq<char>, Json>) -> Map<Seq<char>, JsonData> {
    m.map_values(|v: Json| v@)
}

/// What the members of a record say, in order.
pub open spec fn record_members(v: Seq<(String, Json)>) -> Seq<(Seq<char>, JsonData)> {
    v.map_values(|m: (String, Json)| (m.0@, m.1@))
}

/// The JSON form of a value: dates and date-times become text, the latter in
/// UTC, and a number that JSON cannot write becomes null.
pub open spec fn json_of(d: Data) -> JsonData
    decreases d,
{
    match d {
        Data::Null => JsonData::Null,
        Data::Bool(b) => JsonData::Bool(b),
        Data::Int(i) => JsonData::Int(i as i128),
        Data::Float(f) => if value::is_non_finite(f.bits) {
            JsonData::Null
        } else {
            JsonData::Float(f)
        },
        Data::Text(s) => JsonData::Text(s),
        Data::Date(y, m, d) => JsonData::Text(dates::date_text(y, m, d)),
        Data::DateTime(t) => JsonData::Text(outside::utc_text(t.at.0, t.at.1)),
        Data::List(items) => JsonData::Array(
            Seq::new(
                items.len(),
                |i: int|
                    if 0 <= i < items.len() {
                        json_of(items[i])
                    } else {
                        JsonData::Null
                    },
            ),
        ),
        Data::Table(m) => JsonData::Object(
            Map::new(
                |k: Seq<char>| m.contains_key(k),
                |k: Seq<char>|
                    if m.contains_key(k) {
                        json_of(m[k])
                    } else {
                        JsonData::Null
                    },
            ),
        ),
    }
}

/// The JSON form of frontmatter: one member for each key.
pub open spec fn frontmatter_json(fm: Map<Seq<char>, Data>) -> JsonData {
    JsonData::Object(fm.map_values(|d: Data| json_of(d)))
}

/// A table becomes an object of the same keys.
pub proof fn table_json(fm: Map<Seq<char>, Data>)
    ensures
        json_of(Data::Table(fm)) == frontmatter_json(fm),
{
    assert(json_of(Data::Table(fm))->Object_0 =~= frontmatter_json(fm)->Object_0);
}

fn map_to_json(m: &SortedMap<Value>) -> (r: SortedMap<Json>)
    ensures
        JsonData::Object(members(r@)) == frontmatter_json(value::table_data(m@)),
    decreases m,
{
    let mut out: SortedMap<Json> = SortedMap::new();
    let n: usize = m.len();
    let ghost keys = sorted::ascending(m@.dom());
    let mut i: usize = 0;
    while i < n
        invariant
            i <= n == keys.len(),
            keys == sorted::ascending(m@.dom()),
            sorted::lists(keys, m@.dom()),
            forall|k: Seq<char>| #[trigger] out@.contains_key(k) <==> keys.take(i as int).contains(k),
            forall|k: Seq<char>| #[trigger] out@.contains_key(k) ==> out@[k]@ == json_of(m@[k]@),
        decreases n - i,
    {
        let key = m.key_at(i);
        let v = m.value_at(i).to_json();
        out.insert(key.clone(), v);
        proof {
            assert forall|k: Seq<char>| #[trigger] out@.contains_key(k) <==> keys.take(
                i + 1,
            ).contains(k) by {
                lists::take_grows(keys, i as int, k);
            }
        }
        i += 1;
    }
    proof {
        assert(keys.take(n as int) =~= keys);
        assert forall|k: Seq<char>| #[trigger] m@.contains_key(k) <==> out@.contains_key(k) by {
            assert(m@.dom().contains(k) <==> keys.contains(k));
        }
        assert(members(out@) =~= frontmatter_json(value::table_data(m@))->Object_0);
    }
    out
}

/// What a record says is what its members say.
pub proof fn record_data(v: Vec<(String, Json)>)
    ensures
        Json::Record(v)@ == JsonData::Record(record_members(v@)),
{
    assert(Json::Record(v)@->Record_0 =~= record_members(v@));
}

/// What an array says is what its items say.
pub proof fn array_data(v: Vec<Json>)
    ensures
        Json::Array(v)@ == JsonData::Array(v@.map_values(|j: Json| j@)),
{
    assert(Json::Array(v)@->Array_0 =~= v@.map_values(|j: Json| j@));
}

/// What an object says is what its members say.
pub proof fn object_data(m: SortedMap<Json>)
    ensures
        Json::Object(m)@ == JsonData::Object(members(m@)),
{
    assert(Json::Object(m)@->Object_0 =~= members(m@));
}

impl Value {
    /// The plain JSON form: `tags: [a, b]` becomes `["a", "b"]`. Dates and
    /// date-times become their ISO-8601 and RFC 3339 text, the latter in UTC
    /// with a `Z`, so that the same instant always reads the same.
    pub fn to_json(&self) -> (r: Json)
        ensures
            r@ == json_of(self@),
        decreases self,
    {
        match self {
            Value::Null => Json::Null,
            Value::Bool(b) => Json::Bool(*b),
            Value::Int(i) => Json::Int(*i as i128),
            Value::Float(f) => if f.bits % 0x8000_0000_0000_0000 >= 0x7ff0_0000_0000_0000 {
                Json::Null
            } else {
                Json::Float(f.clone())
            },
            Value::String(s) => Json::String(s.clone()),
            Value::Date(d) => Json::String(d.format()),
            Value::DateTime(t) => Json::String(t.instant().to_rfc3339()),
            Value::Sequence(items) => {
                let mut out: Vec<Json> = Vec::new();
                let mut i: usize = 0;
                while i < items.len()
                    invariant
                        i <= items@.len(),
                        out@.len() == i,
                        *self == Value::Sequence(*items),
                        forall|j: int| 0 <= j < i ==> (#[trigger] out@[j])@ == json_of(items@[j]@),
                    decreases items@.len() - i,
                {
                    proof {
                        assert(decreases_to!(*self => self->Sequence_0));
                        assert(decreases_to!(items@ => items@[i as int]));
                    }
                    let v = items[i].to_json();
                    out.push(v);
                    i += 1;
                }
                proof {
                    value::sequence_data(*items);
                    assert(Json::Array(out)@->Array_0 =~= json_of(self@)->Array_0);
                }
                Json::Array(out)
            },
            Value::Mapping(m) => {
                let out = map_to_json(m);
                proof {
                    object_data(out);
                    value::mapping_data(*m);
                    table_json(value::table_data(m@));
                }
                Json::Object(out)
            },
        }
    }
}

/// The JSON object of a whole frontmatter.
pub fn frontmatter_to_json(fm: &Frontmatter) -> (r: Json)
    ensures
        r@ == frontmatter_json(value::table_data(fm@)),
{
    let out = map_to_json(fm);
    proof {
        object_data(out);
    }
    Json::Object(out)
}

/// Two date-times of the same instant have the same JSON form, whatever offsets
/// they were written in.
pub proof fn same_instant_same_json(a: dates::DateTimeData, b: dates::DateTimeData)
    requires
        a.at == b.at,
    ensures
        json_of(Data::DateTime(a)) == json_of(Data::DateTime(b)),
{
}

/// The JSON form says the same as the value: null, a truth value, an integer
/// and a text are themselves, and a finite double is.
pub proof fn json_says_the_same(b: bool, i: i64, s: Seq<char>, f: FloatData)
    ensures
        json_of(Data::Null) == JsonData::Null,
        json_of(Data::Bool(b)) == JsonData::Bool(b),
        json_of(Data::Int(i)) is Int,
        json_of(Data::Int(i))->Int_0 == i,
        json_of(Data::Text(s)) == JsonData::Text(s),
        f.bits < 0x7ff0_0000_0000_0000 || 0x8000_0000_0000_0000 <= f.bits < 0xfff0_0000_0000_0000
            ==> json_of(Data::Float(f)) == JsonData::Float(f),
        0x7ff0_0000_0000_0000 <= f.bits < 0x8000_0000_0000_0000 || f.bits >= 0xfff0_0000_0000_0000
            ==> json_of(Data::Float(f)) == JsonData::Null,
{
}

/// Two truth values, integers or texts with the same JSON form are the same
/// value.
pub proof fn json_tells_values_apart(a: Data, b: Data)
    requires
        a is Bool || a is Int || a is Text,
        b is Bool || b is Int || b is Text,
        json_of(a) == json_of(b),
    ensures
        a == b,
{
}

/// Dates and date-times become text: a date the one that it is compared by, a
/// date-time its instant in UTC.
pub proof fn json_of_times_is_text(y: i32, m: u32, d: u32, t: dates::DateTimeData)
    ensures
        json_of(Data::Date(y, m, d)) == JsonData::Text(
            value::canonical_text(Data::Date(y, m, d)),
        ),
        json_of(Data::DateTime(t)) == JsonData::Text(outside::utc_text(t.at.0, t.at.1)),
{
}

/// A list becomes an array of as many items, in the same order; a table becomes
/// an object of the same keys; each item and each value becomes its own JSON
/// form.
pub proof fn json_keeps_lists_and_tables(
    items: Seq<Data>,
    i: int,
    m: Map<Seq<char>, Data>,
    k: Seq<char>,
)
    ensures
        json_of(Data::List(items)) is Array,
        json_of(Data::List(items))->Array_0.len() == items.len(),
        0 <= i < items.len() ==> json_of(Data::List(items))->Array_0[i] == json_of(items[i]),
        json_of(Data::Table(m)) is Object,
        json_of(Data::Table(m))->Object_0.contains_key(k) <==> m.contains_key(k),
        m.contains_key(k) ==> json_of(Data::Table(m))->Object_0[k] == json_of(m[k]),
        frontmatter_json(m) is Object,
        frontmatter_json(m)->Object_0.contains_key(k) <==> m.contains_key(k),
        m.contains_key(k) ==> frontmatter_json(m)->Object_0[k] == json_of(m[k]),
{
}

}
