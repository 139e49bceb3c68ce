//! Frontmatter values: what they hold, how they read as text and as JSON.

use vstd::arithmetic::power2::{
    lemma2_to64, lemma2_to64_rest, lemma_pow2_strictly_increases, lemma_pow2_unfold, pow2,
};
use vstd::prelude::*;

use crate::dates;
use crate::dates::{Date, DateTime, DateTimeData};
use crate::lists;
use crate::numbers;
use crate::outside;
use crate::sorted;
use crate::sorted::SortedMap;
use crate::text;
use crate::text::Order;

verus! {

broadcast use sorted::value_is_smaller;

/// A double-precision number: its bits, and its two text forms.
#[derive(Debug)]
pub struct Float {
    pub bits: u64,
    /// The `Display` form (`1.5`, `1`, `NaN`).
    pub text: String,
    /// The `Debug` form (`1.5`, `1.0`, `NaN`).
    pub debug: String,
}

/// What a [`Float`] holds.
#[verifier::ext_equal]
pub struct FloatData {
    pub bits: u64,
    pub text: Seq<char>,
    pub debug: Seq<char>,
}

impl View for Float {
    type V = FloatData;

    open spec fn view(&self) -> FloatData {
        FloatData { bits: self.bits, text: self.text@, debug: self.debug@ }
    }
}

/// Doubles are equal as numbers: the two zeros are equal, and what is no number
/// equals nothing, not even itself.
impl PartialEq for Float {
    fn eq(&self, other: &Self) -> (r: bool) {
        same_number(self.bits, other.bits)
    }
}

impl vstd::std_specs::cmp::PartialEqSpecImpl for Float {
    open spec fn obeys_eq_spec() -> bool {
        true
    }

    open spec fn eq_spec(&self, other: &Self) -> bool {
        numbers_equal(self.bits, other.bits)
    }
}

impl Clone for Float {
    fn clone(&self) -> (r: Self)
        ensures
            r@ == self@,
    {
        Float { bits: self.bits, text: self.text.clone(), debug: self.debug.clone() }
    }
}

/// The bits of a double without its sign.
pub open spec fn float_magnitude(bits: u64) -> int {
    bits as int % 0x8000_0000_0000_0000
}

/// Whether the bits are those of an infinity or of no number at all.
pub open spec fn is_non_finite(bits: u64) -> bool {
    float_magnitude(bits) >= 0x7ff0_0000_0000_0000
}

/// Whether the bits are those of no number at all.
pub open spec fn is_nan(bits: u64) -> bool {
    float_magnitude(bits) > 0x7ff0_0000_0000_0000
}

/// Whether the bits of two doubles denote one number.
pub open spec fn numbers_equal(a: u64, b: u64) -> bool {
    !is_nan(a) && !is_nan(b) && float_key(a) == float_key(b)
}

/// Whether the bits of two doubles denote one number.
pub fn same_number(a: u64, b: u64) -> (r: bool)
    ensures
        r == numbers_equal(a, b),
{
    let x: u64 = magnitude(a);
    let y: u64 = magnitude(b);
    if x > 0x7ff0_0000_0000_0000 || y > 0x7ff0_0000_0000_0000 {
        return false;
    }
    a == b || (x == 0 && y == 0)
}

/// An integer that grows with the number that the bits denote.
pub open spec fn float_key(bits: u64) -> int {
    if bits >= 0x8000_0000_0000_0000 {
        -float_magnitude(bits)
    } else {
        float_magnitude(bits)
    }
}

/// Order of two doubles; equal where one of them is no number.
pub open spec fn float_order(a: u64, b: u64) -> Order {
    if is_nan(a) || is_nan(b) {
        Order::Equal
    } else {
        text::int_order(float_key(a), float_key(b))
    }
}

/// How many `unit`s are nearest to `m`: the even count where two are.
pub open spec fn round_half_even(m: nat, unit: nat) -> nat {
    let q = m / unit;
    let r = m % unit;
    if 2 * r > unit || (2 * r == unit && q % 2 == 1) {
        q + 1
    } else {
        q
    }
}

/// The bits of the double `m`, for `m` of at most 53 binary digits: `m` is
/// doubled until it has 53 of them, the exponent field falling with each step.
pub open spec fn widened_bits(m: nat, field: int) -> int
    decreases 0x20_0000_0000_0000 - m,
{
    if 0 < m < 0x10_0000_0000_0000 {
        widened_bits(2 * m, field - 1)
    } else {
        field * 0x10_0000_0000_0000 + (m - 0x10_0000_0000_0000)
    }
}

/// The bits of the double nearest to `m`, for `m` of more than 53 binary
/// digits: the unit is doubled until `m` has 53 digits in it, the exponent
/// field rising with each step.
pub open spec fn rounded_bits(m: nat, unit: nat, field: int) -> int
    decreases m - 0x10_0000_0000_0000 * unit,
{
    if unit > 0 && m >= 0x20_0000_0000_0000 * unit {
        rounded_bits(m, 2 * unit, field + 1)
    } else {
        field * 0x10_0000_0000_0000 + (round_half_even(m, unit) - 0x10_0000_0000_0000)
    }
}

/// The bits of the double nearest to `m`.
pub open spec fn nat_bits(m: nat) -> int {
    if m == 0 {
        0
    } else if m < 0x20_0000_0000_0000 {
        widened_bits(m, 1075)
    } else {
        rounded_bits(m, 1, 1075)
    }
}

/// The bits of the double nearest to an integer.
pub open spec fn int_bits(i: i64) -> u64 {
    if i < 0 {
        (0x8000_0000_0000_0000 + nat_bits((-i) as nat)) as u64
    } else {
        nat_bits(i as nat) as u64
    }
}

fn magnitude(bits: u64) -> (r: u64)
    ensures
        r == float_magnitude(bits),
{
    bits % 0x8000_0000_0000_0000
}

/// Order of two doubles given by their bits.
pub fn compare_floats(a: u64, b: u64) -> (r: Order)
    ensures
        r == float_order(a, b),
{
    let x: u64 = magnitude(a);
    let y: u64 = magnitude(b);
    if x > 0x7ff0_0000_0000_0000 || y > 0x7ff0_0000_0000_0000 {
        return Order::Equal;
    }
    let p: i64 = if a >= 0x8000_0000_0000_0000 { -(x as i64) } else { x as i64 };
    let q: i64 = if b >= 0x8000_0000_0000_0000 { -(y as i64) } else { y as i64 };
    text::compare_ints(p, q)
}

proof fn fits_52_bits(k: nat)
    requires
        pow2(k) < 0x10_0000_0000_0000,
    ensures
        k < 52,
{
    lemma2_to64_rest();
    if k > 52 {
        lemma_pow2_strictly_increases(52, k);
    }
}

fn magnitude_bits(m: u64) -> (r: u64)
    requires
        m <= 0x8000_0000_0000_0000,
    ensures
        r == nat_bits(m as nat),
        r < 0x7ff0_0000_0000_0000,
{
    if m == 0 {
        return 0;
    }
    if m < 0x20_0000_0000_0000 {
        let mut x: u64 = m;
        let mut field: u64 = 1075;
        proof {
            lemma2_to64();
        }
        while x < 0x10_0000_0000_0000
            invariant
                0 < x < 0x20_0000_0000_0000,
                1022 <= field <= 1075,
                x >= pow2((1075 - field) as nat),
                widened_bits(x as nat, field as int) == widened_bits(m as nat, 1075),
            decreases 0x20_0000_0000_0000 - x,
        {
            proof {
                fits_52_bits((1075 - field) as nat);
                lemma_pow2_unfold((1076 - field) as nat);
            }
            x = 2 * x;
            field -= 1;
        }
        field * 0x10_0000_0000_0000 + (x - 0x10_0000_0000_0000)
    } else {
        let mut unit: u128 = 1;
        let mut field: u64 = 1075;
        proof {
            lemma2_to64();
        }
        while m as u128 >= 0x20_0000_0000_0000 * unit
            invariant
                1 <= unit <= 0x800,
                1075 <= field <= 1086,
                unit == pow2((field - 1075) as nat),
                m <= 0x8000_0000_0000_0000,
                m as nat >= 0x10_0000_0000_0000 * unit,
                rounded_bits(m as nat, unit as nat, field as int) == rounded_bits(m as nat, 1, 1075),
            decreases m - 0x10_0000_0000_0000 * unit,
        {
            proof {
                lemma2_to64();
                if field >= 1085 {
                    if field > 1085 {
                        lemma_pow2_strictly_increases(10, (field - 1075) as nat);
                    }
                    assert(unit >= 0x400);
                }
                lemma_pow2_unfold((field - 1074) as nat);
            }
            unit = 2 * unit;
            field += 1;
        }
        let u: u64 = unit as u64;
        let q: u64 = m / u;
        let r: u64 = m % u;
        assert(0x10_0000_0000_0000 <= m / u < 0x20_0000_0000_0000) by (nonlinear_arith)
            requires
                u > 0,
                0x10_0000_0000_0000 * u <= m < 0x20_0000_0000_0000 * u,
        ;
        let up = 2 * r > u || (2 * r == u && q % 2 == 1);
        let sig: u64 = if up { q + 1 } else { q };
        field * 0x10_0000_0000_0000 + (sig - 0x10_0000_0000_0000)
    }
}

/// The bits of the double nearest to an integer, `i as` a double.
pub fn float_of_int(i: i64) -> (r: u64)
    ensures
        r == int_bits(i),
{
    if i < 0 {
        let m: u64 = if i == i64::MIN { 0x8000_0000_0000_0000 } else { (-i) as u64 };
        0x8000_0000_0000_0000 + magnitude_bits(m)
    } else {
        magnitude_bits(i as u64)
    }
}

/// A frontmatter value: the tree that YAML gives, with dates and date-times
/// told apart from other text.
#[derive(Debug, PartialEq)]
pub enum Value {
    Null,
    Bool(bool),
    Int(i64),
    Float(Float),
    String(String),
    Date(Date),
    DateTime(DateTime),
    Sequence(Vec<Value>),
    Mapping(SortedMap<Value>),
}

/// The frontmatter of a note, by key.
pub type Frontmatter = SortedMap<Value>;

/// What a [`Value`] says.
pub enum Data {
    Null,
    Bool(bool),
    Int(i64),
    Float(FloatData),
    Text(Seq<char>),
    Date(i32, u32, u32),
    DateTime(DateTimeData),
    List(Seq<Data>),
    Table(Map<Seq<char>, Data>),
}

impl Value {
    /// What the value says.
    pub open spec fn data(self) -> Data
        decreases self,
    {
        match self {
            Value::Null => Data::Null,
            Value::Bool(b) => Data::Bool(b),
            Value::Int(i) => Data::Int(i),
            Value::Float(f) => Data::Float(f@),
            Value::String(s) => Data::Text(s@),
            Value::Date(d) => Data::Date(d@.0, d@.1, d@.2),
            Value::DateTime(t) => Data::DateTime(t@),
            Value::Sequence(items) => Data::List(
                Seq::new(
                    items@.len(),
                    |i: int|
                        if 0 <= i < items@.len() {
                            items@[i].data()
                        } else {
                            Data::Null
                        },
                ),
            ),
            Value::Mapping(m) => Data::Table(
                Map::new(
                    |k: Seq<char>| m@.contains_key(k),
                    |k: Seq<char>|
                        if m@.contains_key(k) {
                            m@[k].data()
                        } else {
                            Data::Null
                        },
                ),
            ),
        }
    }
}

impl View for Value {
    type V = Data;

    open spec fn view(&self) -> Data {
        self.data()
    }
}

/// What the values of a list say.
pub open spec fn list_data(items: Seq<Value>) -> Seq<Data> {
    items.map_values(|v: Value| v@)
}

/// What the values of a map say, by key.
pub open spec fn table_data(m: Map<Seq<char>, Value>) -> Map<Seq<char>, Data> {
    m.map_values(|v: Value| v@)
}

/// A sequence says what its items say.
pub broadcast proof fn sequence_data(items: Vec<Value>)
    ensures
        #[trigger] Value::Sequence(items).data() == Data::List(list_data(items@)),
{
    assert(Value::Sequence(items).data()->List_0 =~= list_data(items@));
}

/// A mapping says what its values say.
pub broadcast proof fn mapping_data(m: SortedMap<Value>)
    ensures
        #[trigger] Value::Mapping(m).data() == Data::Table(table_data(m@)),
{
    assert(Value::Mapping(m).data()->Table_0 =~= table_data(m@));
}

/// A copy of a mapping that says the same.
pub fn copy_map(m: &SortedMap<Value>) -> (r: SortedMap<Value>)
    ensures
        table_data(r@) == table_data(m@),
    decreases m,
{
    let mut out: SortedMap<Value> = SortedMap::new();
    let n: usize = m.len();
    let ghost keys = sorted::ascending(m@.dom());
    let mut i: usize = 0;
    while i < n
        invariant
            i <= n == keys.len(),
            keys == sorted::ascending(m@.dom()),
            sorted::lists(keys, m@.dom()),
            forall|k: Seq<char>| #[trigger] out@.contains_key(k) <==> keys.take(i as int).contains(k),
            forall|k: Seq<char>| #[trigger] out@.contains_key(k) ==> out@[k]@ == m@[k]@,
        decreases n - i,
    {
        let key = m.key_at(i);
        let v = m.value_at(i).clone();
        let ghost before = out@;
        out.insert(key.clone(), v);
        proof {
            let k0 = keys[i as int];
            assert forall|k: Seq<char>| #[trigger] out@.contains_key(k) <==> keys.take(
                i + 1,
            ).contains(k) by {
                lists::take_grows(keys, i as int, k);
            }
        }
        i += 1;
    }
    proof {
        assert(keys.take(n as int) =~= keys);
        assert forall|k: Seq<char>| #[trigger] m@.contains_key(k) <==> out@.contains_key(k) by {
            assert(m@.dom().contains(k) <==> keys.contains(k));
        }
        assert(table_data(out@) =~= table_data(m@));
    }
    out
}

impl Clone for Value {
    fn clone(&self) -> (r: Self)
        ensures
            r@ == self@,
        decreases self,
    {
        match self {
            Value::Null => Value::Null,
            Value::Bool(b) => Value::Bool(*b),
            Value::Int(i) => Value::Int(*i),
            Value::Float(f) => Value::Float(f.clone()),
            Value::String(s) => Value::String(s.clone()),
            Value::Date(d) => Value::Date(*d),
            Value::DateTime(t) => Value::DateTime(*t),
            Value::Sequence(items) => {
                let mut out: Vec<Value> = Vec::new();
                let mut i: usize = 0;
                while i < items.len()
                    invariant
                        i <= items@.len(),
                        out@.len() == i,
                        *self == Value::Sequence(*items),
                        forall|j: int| 0 <= j < i ==> (#[trigger] out@[j])@ == items@[j]@,
                    decreases items@.len() - i,
                {
                    proof {
                        assert(decreases_to!(*self => self->Sequence_0));
                        assert(decreases_to!(items@ => items@[i as int]));
                    }
                    let v = items[i].clone();
                    out.push(v);
                    i += 1;
                }
                proof {
                    assert(list_data(out@) =~= list_data(items@));
                    sequence_data(out);
                    sequence_data(*items);
                }
                Value::Sequence(out)
            },
            Value::Mapping(m) => {
                let out = copy_map(m);
                proof {
                    mapping_data(out);
                    mapping_data(*m);
                }
                Value::Mapping(out)
            },
        }
    }
}

/// How the items of a list or the entries of a table read, one by one.
pub open spec fn debug_parts(d: Data) -> Seq<Seq<char>>
    decreases d, 0int,
{
    match d {
        Data::List(items) => Seq::new(
            items.len(),
            |i: int|
                if 0 <= i < items.len() {
                    debug_text(items[i])
                } else {
                    seq![]
                },
        ),
        Data::Table(m) => {
            let keys = sorted::ascending(m.dom());
            Seq::new(
                keys.len(),
                |i: int|
                    if m.contains_key(keys[i]) {
                        outside::quoted(keys[i]) + ": "@ + debug_text(m[keys[i]])
                    } else {
                        seq![]
                    },
            )
        },
        _ => seq![],
    }
}

/// How a value reads inside the text of a list or a table: the name of its
/// kind, and its contents in brackets.
pub open spec fn debug_text(d: Data) -> Seq<char>
    decreases d, 1int,
{
    match d {
        Data::Null => "Null"@,
        Data::Bool(b) => "Bool("@ + numbers::bool_text(b) + ")"@,
        Data::Int(i) => "Int("@ + numbers::int_text(i as int) + ")"@,
        Data::Float(f) => "Float("@ + f.debug + ")"@,
        Data::Text(s) => "String("@ + outside::quoted(s) + ")"@,
        Data::Date(y, m, d) => "Date("@ + dates::date_text(y, m, d) + ")"@,
        Data::DateTime(t) => "DateTime("@ + outside::offset_text(t.at.0, t.at.1, t.offset) + ")"@,
        Data::List(_) => "Sequence(["@ + text::joined(debug_parts(d), ", "@) + "])"@,
        Data::Table(_) => "Mapping({"@ + text::joined(debug_parts(d), ", "@) + "})"@,
    }
}

fn enclosed(before: &str, inner: &str, after: &str) -> (r: String)
    ensures
        r@ == before@ + inner@ + after@,
{
    let mut out = text::copy_of(before);
    out.append(inner);
    out.append(after);
    out
}

fn debug_map(m: &SortedMap<Value>) -> (r: String)
    ensures
        r@ == debug_text(Data::Table(table_data(m@))),
    decreases m,
{
    let mut parts: Vec<String> = Vec::new();
    let n: usize = m.len();
    let ghost d = table_data(m@);
    let ghost keys = sorted::ascending(m@.dom());
    assert(d.dom() =~= m@.dom());
    let mut i: usize = 0;
    while i < n
        invariant
            i <= n == keys.len(),
            keys == sorted::ascending(m@.dom()),
            sorted::lists(keys, m@.dom()),
            d == table_data(m@),
            parts@.len() == i,
            forall|j: int|
                0 <= j < i ==> (#[trigger] parts@[j])@ == outside::quoted(keys[j]) + ": "@
                    + debug_text(d[keys[j]]),
            forall|j: int| 0 <= j < i ==> d.contains_key(#[trigger] keys[j]),
        decreases n - i,
    {
        let key = m.key_at(i);
        let inner = m.value_at(i).debug_string();
        let quoted = outside::quote(key.as_str());
        parts.push(enclosed(quoted.as_str(), ": ", inner.as_str()));
        i += 1;
    }
    proof {
        assert(text::views(parts@) =~= debug_parts(Data::Table(d)));
    }
    enclosed("Mapping({", text::join(&parts, ", ").as_str(), "})")
}

impl Value {
    /// How the value reads inside the text of a list or a table.
    pub fn debug_string(&self) -> (r: String)
        ensures
            r@ == debug_text(self@),
        decreases self,
    {
        match self {
            Value::Null => text::copy_of("Null"),
            Value::Bool(b) => enclosed("Bool(", numbers::write_bool(*b).as_str(), ")"),
            Value::Int(i) => enclosed("Int(", numbers::i64_text(*i).as_str(), ")"),
            Value::Float(f) => enclosed("Float(", f.debug.as_str(), ")"),
            Value::String(s) => enclosed("String(", outside::quote(s.as_str()).as_str(), ")"),
            Value::Date(d) => enclosed("Date(", d.format().as_str(), ")"),
            Value::DateTime(t) => enclosed("DateTime(", t.debug_text().as_str(), ")"),
            Value::Sequence(items) => {
                let mut parts: Vec<String> = Vec::new();
                let mut i: usize = 0;
                while i < items.len()
                    invariant
                        i <= items@.len(),
                        parts@.len() == i,
                        *self == Value::Sequence(*items),
                        forall|j: int| 0 <= j < i ==> (#[trigger] parts@[j])@ == debug_text(items@[j]@),
                    decreases items@.len() - i,
                {
                    proof {
                        assert(decreases_to!(*self => self->Sequence_0));
                        assert(decreases_to!(items@ => items@[i as int]));
                    }
                    let v = items[i].debug_string();
                    parts.push(v);
                    i += 1;
                }
                proof {
                    sequence_data(*items);
                    assert(text::views(parts@) =~= debug_parts(self@));
                }
                enclosed("Sequence([", text::join(&parts, ", ").as_str(), "])")
            },
            Value::Mapping(m) => {
                proof {
                    mapping_data(*m);
                }
                debug_map(m)
            },
        }
    }
}

/// The text that a value is compared and grouped by.
pub open spec fn canonical_text(d: Data) -> Seq<char> {
    match d {
        Data::Null => "null"@,
        Data::Bool(b) => numbers::bool_text(b),
        Data::Int(i) => numbers::int_text(i as int),
        Data::Float(f) => f.text,
        Data::Text(s) => s,
        Data::Date(y, m, d) => dates::date_text(y, m, d),
        Data::DateTime(t) => outside::utc_text(t.at.0, t.at.1),
        Data::List(_) => debug_text(d),
        Data::Table(_) => debug_text(d),
    }
}

impl Value {
    /// The text that the value is compared and grouped by.
    pub fn canonical_string(&self) -> (r: String)
        ensures
            r@ == canonical_text(self@),
    {
        match self {
            Value::Null => text::copy_of("null"),
            Value::Bool(b) => numbers::write_bool(*b),
            Value::Int(i) => numbers::i64_text(*i),
            Value::Float(f) => f.text.clone(),
            Value::String(s) => s.clone(),
            Value::Date(d) => d.format(),
            Value::DateTime(t) => t.instant().to_rfc3339(),
            Value::Sequence(_) => self.debug_string(),
            Value::Mapping(_) => self.debug_string(),
        }
    }
}

/// Two date-times of the same instant have the same canonical text, whatever
/// offsets they were written in.
pub proof fn same_instant_same_text(a: DateTimeData, b: DateTimeData)
    requires
        a.at == b.at,
    ensures
        canonical_text(Data::DateTime(a)) == canonical_text(Data::DateTime(b)),
{
}

// -- laws -------------------------------------------------------------------

/// Doubles are ordered as numbers. Those without the sign bit grow with their
/// bits, those with it fall; a negative number is less than one that is not;
/// the two zeros are equal. What is no number counts as equal to everything.
pub proof fn doubles_are_ordered_as_numbers(a: u64, b: u64)
    ensures
        a <= 0x7ff0_0000_0000_0000 && b <= 0x7ff0_0000_0000_0000 ==> (float_order(a, b)
            == Order::Less <==> a < b) && (float_order(a, b) == Order::Greater <==> b < a),
        0x8000_0000_0000_0000 <= a <= 0xfff0_0000_0000_0000 && 0x8000_0000_0000_0000 <= b
            <= 0xfff0_0000_0000_0000 ==> (float_order(a, b) == Order::Less <==> b < a) && (
        float_order(a, b) == Order::Greater <==> a < b),
        0x8000_0000_0000_0000 < a <= 0xfff0_0000_0000_0000 && b <= 0x7ff0_0000_0000_0000
            ==> float_order(a, b) == Order::Less && float_order(b, a) == Order::Greater,
        float_order(0x8000_0000_0000_0000, 0) == Order::Equal,
        b <= 0x7ff0_0000_0000_0000 && b > 0 ==> float_order(0x8000_0000_0000_0000, b)
            == Order::Less,
        0x7ff0_0000_0000_0000 < a < 0x8000_0000_0000_0000 || a > 0xfff0_0000_0000_0000
            ==> float_order(a, b) == Order::Equal && float_order(b, a) == Order::Equal,
{
}

/// Doubles are equal as numbers: the same bits are, unless they are those of no
/// number, and the two zeros are.
pub proof fn doubles_are_equal_as_numbers(a: u64, b: u64)
    ensures
        numbers_equal(a, b) <==> (a == b || ((a == 0 || a == 0x8000_0000_0000_0000) && (b == 0
            || b == 0x8000_0000_0000_0000))) && !(0x7ff0_0000_0000_0000 < a
            < 0x8000_0000_0000_0000) && !(a > 0xfff0_0000_0000_0000),
{
}

/// Whether bits are those of the double `q` times a power of two, for `q` of 53
/// binary digits: the exponent field is 1075 and the power, and the digits after
/// the first follow it.
pub open spec fn bits_denote(bits: int, q: int, power: int) -> bool {
    0x10_0000_0000_0000 <= q <= 0x20_0000_0000_0000 && bits == (1075 + power)
        * 0x10_0000_0000_0000 + (q - 0x10_0000_0000_0000)
}

/// Whether bits are those of a double that is exactly `i`: `i` times some power
/// of two, divided by that power.
pub open spec fn is_exactly(bits: int, i: int, power: nat) -> bool {
    bits_denote(bits, i * pow2(power), -(power as int))
}

proof fn widening_keeps_the_number(i: int, m: nat, k: nat)
    requires
        0 < m < 0x20_0000_0000_0000,
        m == i * pow2(k),
    ensures
        exists|e: nat| #[trigger] is_exactly(widened_bits(m, 1075 - k), i, e),
    decreases 0x20_0000_0000_0000 - m,
{
    if m < 0x10_0000_0000_0000 {
        lemma_pow2_unfold(k + 1);
        assert(i * (2 * pow2(k)) == 2 * (i * pow2(k))) by (nonlinear_arith);
        widening_keeps_the_number(i, 2 * m, k + 1);
        let e = choose|e: nat| #[trigger]
            is_exactly(widened_bits(2 * m, 1075 - (k + 1)), i, e);
        assert(widened_bits(m, 1075 - k) == widened_bits(2 * m, 1075 - (k + 1)));
        assert(is_exactly(widened_bits(m, 1075 - k), i, e));
    } else {
        assert(is_exactly(widened_bits(m, 1075 - k), i, k));
    }
}

/// An integer of at most 53 binary digits is exactly a double.
pub proof fn small_integers_are_exact(i: i64)
    requires
        0 < i < 0x20_0000_0000_0000,
    ensures
        exists|e: nat| #[trigger] is_exactly(int_bits(i) as int, i as int, e),
{
    lemma2_to64();
    assert(i * pow2(0) == i) by (nonlinear_arith)
        requires
            pow2(0) == 1,
    ;
    widening_keeps_the_number(i as int, i as nat, 0);
    let e = choose|e: nat| #[trigger]
        is_exactly(widened_bits(i as nat, 1075 - 0), i as int, e);
    if e > 52 {
        lemma2_to64_rest();
        lemma_pow2_strictly_increases(52, e);
        if e > 53 {
            lemma_pow2_strictly_increases(53, e);
        }
        assert(i * pow2(e) >= pow2(e)) by (nonlinear_arith)
            requires
                i >= 1,
                pow2(e) >= 0,
        ;
    }
    assert(is_exactly(int_bits(i) as int, i as int, e));
}

proof fn rounding_is_to_the_nearest(m: nat, k: nat, field: int)
    requires
        m >= 0x10_0000_0000_0000 * pow2(k),
        field == 1075 + k,
    ensures
        exists|j: nat, q: nat| #[trigger]
            nearest(m, q, j) && #[trigger] bits_denote(
                rounded_bits(m, pow2(k), field),
                q as int,
                j as int,
            ),
    decreases m - 0x10_0000_0000_0000 * pow2(k),
{
    vstd::arithmetic::power2::lemma_pow2_pos(k);
    let unit = pow2(k);
    if m >= 0x20_0000_0000_0000 * unit {
        lemma_pow2_unfold(k + 1);
        assert(pow2(k + 1) == 2 * unit);
        rounding_is_to_the_nearest(m, k + 1, field + 1);
        assert(rounded_bits(m, unit, field) == rounded_bits(m, 2 * unit, field + 1));
        let (j, q) = choose|j: nat, q: nat| #[trigger]
            nearest(m, q, j) && #[trigger] bits_denote(
                rounded_bits(m, pow2(k + 1), field + 1),
                q as int,
                j as int,
            );
        assert(bits_denote(rounded_bits(m, unit, field), q as int, j as int));
    } else {
        let q = round_half_even(m, unit);
        let d = m / unit;
        let r = m % unit;
        vstd::arithmetic::div_mod::lemma_fundamental_div_mod(m as int, unit as int);
        vstd::arithmetic::div_mod::lemma_mod_bound(m as int, unit as int);
        assert(d >= 0x10_0000_0000_0000 && d < 0x20_0000_0000_0000) by (nonlinear_arith)
            requires
                m == unit * d + r,
                0 <= r < unit,
                m >= 0x10_0000_0000_0000 * unit,
                m < 0x20_0000_0000_0000 * unit,
        ;
        assert(unit * (d + 1) == unit * d + unit) by (nonlinear_arith);
        assert(q == d || q == d + 1);
        assert(nearest(m, q, k));
        assert(bits_denote(rounded_bits(m, unit, field), q as int, k as int));
    }
}

/// Whether `q` times a power of two is as near to `m` as any multiple of that
/// power, and even where two are equally near.
pub open spec fn nearest(m: nat, q: nat, power: nat) -> bool {
    let unit = pow2(power) as int;
    let off = unit * q - m;
    -unit <= 2 * off <= unit && ((2 * off == unit || 2 * off == -unit) ==> q % 2 == 0)
}

/// An integer of more than 53 binary digits becomes the double nearest to it,
/// the even one where two are.
pub proof fn large_integers_are_rounded(i: i64)
    requires
        i >= 0x20_0000_0000_0000,
    ensures
        exists|j: nat, q: nat| #[trigger]
            nearest(i as nat, q, j) && #[trigger] bits_denote(int_bits(i) as int, q as int, j as int),
{
    lemma2_to64();
    assert(pow2(0) == 1);
    rounding_is_to_the_nearest(i as nat, 0, 1075);
    let (j, q) = choose|j: nat, q: nat| #[trigger]
        nearest(i as nat, q, j) && #[trigger] bits_denote(
            rounded_bits(i as nat, 1, 1075),
            q as int,
            j as int,
        );
    if j > 12 {
        lemma_pow2_strictly_increases(12, j);
        assert(pow2(j) * q >= 0x1000 * 0x10_0000_0000_0000) by (nonlinear_arith)
            requires
                pow2(j) >= 0x1000,
                q >= 0x10_0000_0000_0000,
        ;
        assert(2 * (pow2(j) * q) - 2 * i <= pow2(j));
        assert(pow2(j) * q >= pow2(j) * 0x10_0000_0000_0000) by (nonlinear_arith)
            requires
                q >= 0x10_0000_0000_0000,
        ;
    }
    assert(bits_denote(int_bits(i) as int, q as int, j as int));
}

proof fn magnitudes_fit(m: nat)
    requires
        0 < m < 0x8000_0000_0000_0000,
    ensures
        0 <= nat_bits(m) < 0x8000_0000_0000_0000,
{
    lemma2_to64();
    assert(pow2(0) == 1);
    if m < 0x20_0000_0000_0000 {
        assert(m * pow2(0) == m) by (nonlinear_arith)
            requires
                pow2(0) == 1,
        ;
        widening_keeps_the_number(m as int, m, 0);
        let e = choose|e: nat| #[trigger] is_exactly(widened_bits(m, 1075 - 0), m as int, e);
        if e > 52 {
            lemma2_to64_rest();
            lemma_pow2_strictly_increases(52, e);
            if e > 53 {
                lemma_pow2_strictly_increases(53, e);
            }
            assert(m * pow2(e) >= pow2(e)) by (nonlinear_arith)
                requires
                    m >= 1,
                    pow2(e) >= 0,
            ;
        }
    } else {
        rounding_is_to_the_nearest(m, 0, 1075);
        let (j, q) = choose|j: nat, q: nat| #[trigger]
            nearest(m, q, j) && #[trigger] bits_denote(
                rounded_bits(m, 1, 1075),
                q as int,
                j as int,
            );
        if j > 12 {
            lemma_pow2_strictly_increases(12, j);
            assert(pow2(j) * q >= pow2(j) * 0x10_0000_0000_0000) by (nonlinear_arith)
                requires
                    q >= 0x10_0000_0000_0000,
            ;
        }
    }
}

/// Zero is the double zero, and the double of a negative integer is that of its
/// opposite with the sign bit set.
pub proof fn signs_are_a_bit(i: i64)
    requires
        0 < i,
    ensures
        int_bits(0) == 0,
        int_bits((-i) as i64) as int == int_bits(i) as int + 0x8000_0000_0000_0000,
{
    magnitudes_fit(i as nat);
}

/// The text that a value is compared by is what it says: a text itself, a truth
/// value as `true` or `false`, an integer in digits, a double as it is written,
/// and an instant in UTC.
pub proof fn values_read_as_what_they_say(
    b: bool,
    i: i64,
    f: FloatData,
    s: Seq<char>,
    t: DateTimeData,
)
    ensures
        canonical_text(Data::Null) == "null"@,
        canonical_text(Data::Bool(b)) == if b {
            "true"@
        } else {
            "false"@
        },
        numbers::signed_value(
            canonical_text(Data::Int(i)),
            i64::MIN as int,
            i64::MAX as int,
        ) == Some(i as int),
        canonical_text(Data::Int(i))[0] == '-' <==> i < 0,
        canonical_text(Data::Float(f)) == f.text,
        canonical_text(Data::Text(s)) == s,
        canonical_text(Data::DateTime(t)) == outside::utc_text(t.at.0, t.at.1),
{
    numbers::written_integers_read_back(i as int, i64::MIN as int, i64::MAX as int);
}

/// A date reads as its year, its month and its day, with hyphens between: the
/// year in four digits at least, the month and the day in two.
pub proof fn dates_read_as_year_month_day(y: i32, m: u32, d: u32)
    requires
        0 <= y <= 9999,
    ensures
        exists|a: Seq<char>, b: Seq<char>, c: Seq<char>|
            canonical_text(Data::Date(y, m, d)) == #[trigger] (a + seq!['-'] + b + seq!['-'] + c)
                && a.len() >= 4 && b.len() >= 2 && c.len() >= 2 && numbers::digits_value(a) == y
                && numbers::digits_value(b) == m && numbers::digits_value(c) == d,
{
    numbers::padding_adds_zeros(y as nat, 4);
    numbers::padding_adds_zeros(m as nat, 2);
    numbers::padding_adds_zeros(d as nat, 2);
    let a = numbers::padded(y as nat, 4);
    let b = numbers::padded(m as nat, 2);
    let c = numbers::padded(d as nat, 2);
    assert(canonical_text(Data::Date(y, m, d)) =~= a + seq!['-'] + b + seq!['-'] + c);
}

/// A list of one item reads as that item in brackets, and an empty one as
/// brackets alone; items have the name of their kind before them.
pub proof fn lists_read_item_by_item(d: Data, b: bool, i: i64, s: Seq<char>)
    ensures
        canonical_text(Data::List(seq![d])) == "Sequence(["@ + debug_text(d) + "])"@,
        canonical_text(Data::List(seq![])) == "Sequence(["@ + "])"@,
        debug_text(Data::Bool(b)) == "Bool("@ + canonical_text(Data::Bool(b)) + ")"@,
        debug_text(Data::Int(i)) == "Int("@ + canonical_text(Data::Int(i)) + ")"@,
        debug_text(Data::Text(s)) == "String("@ + outside::quoted(s) + ")"@,
        debug_text(Data::Null) == "Null"@,
{
    let one = Data::List(seq![d]);
    assert(debug_parts(one) =~= seq![debug_text(d)]);
    assert(text::joined(debug_parts(one), ", "@) == debug_text(d));
    let none = Data::List(seq![]);
    assert(debug_parts(none) =~= seq![]);
    assert("Sequence(["@ + Seq::<char>::empty() =~= "Sequence(["@);
}

/// A table in a text reads entry by entry, in the order of its keys: each key
/// quoted, and behind it the text of its value.
pub proof fn tables_read_entry_by_entry(m: Map<Seq<char>, Data>, key: Seq<char>)
    requires
        m.dom().finite(),
        m.contains_key(key),
    ensures
        text::is_within(
            outside::quoted(key) + ": "@ + debug_text(m[key]),
            debug_text(Data::Table(m)),
        ),
        debug_parts(Data::Table(m)).len() == m.dom().len(),
{
    let d = Data::Table(m);
    let keys = sorted::ascending(m.dom());
    sorted::finite_sets_are_listed(m.dom());
    assert(m.dom().contains(key));
    let i = keys.index_of(key);
    let parts = debug_parts(d);
    let inner = text::joined(parts, ", "@);
    assert(parts[i] == outside::quoted(key) + ": "@ + debug_text(m[key]));
    text::joined_holds_each(parts, ", "@, i);
    text::within_more(parts[i], inner, "Mapping({"@, "})"@);
    assert(keys.no_duplicates()) by {
        assert forall|a: int, b: int|
            0 <= a < keys.len() && 0 <= b < keys.len() && a != b implies keys[a] != keys[b] by {
            text::precedes_irreflexive(keys[a]);
            if a < b {
                assert(text::precedes(keys[a], keys[b]));
            } else {
                assert(text::precedes(keys[b], keys[a]));
            }
        }
    }
    keys.unique_seq_to_set();
    assert(keys.to_set() =~= m.dom());
}

/// A year outside the four digits carries its sign in the text of a date.
pub proof fn far_years_carry_their_sign(y: i32, m: u32, d: u32)
    ensures
        y > 9999 ==> canonical_text(Data::Date(y, m, d))[0] == '+',
        y < 0 ==> canonical_text(Data::Date(y, m, d))[0] == '-',
{
}

}
