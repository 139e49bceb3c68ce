//! The fragments of a merged document: their order, the guard on their kind,
//! and how they are put together.

use vstd::multiset::Multiset;
use vstd::prelude::*;

use crate::dates;
use crate::lists;
use crate::query;
use crate::sorted;
use crate::sorted::SortedMap;
use crate::text;
use crate::text::Order;
use crate::value;
use crate::value::{Data, Value};

verus! {

/// One matched note of a merge: its path and body, and the values of the keys
/// that order and guard go by.
pub struct Fragment<'a> {
    pub path: &'a String,
    pub body: &'a String,
    pub order_value: Option<&'a Value>,
    pub kind_value: Option<&'a Value>,
}

/// What a [`Fragment`] says.
#[verifier::ext_equal]
pub struct FragmentData {
    pub path: Seq<char>,
    pub body: Seq<char>,
    pub order: Option<Data>,
    pub kind: Option<Data>,
}

/// What an optional value says.
pub open spec fn opt_data(v: Option<&Value>) -> Option<Data> {
    match v {
        Some(v) => Some(v@),
        None => None,
    }
}

impl<'a> View for Fragment<'a> {
    type V = FragmentData;

    open spec fn view(&self) -> FragmentData {
        FragmentData {
            path: self.path@,
            body: self.body@,
            order: opt_data(self.order_value),
            kind: opt_data(self.kind_value),
        }
    }
}

/// What a list of fragments says.
pub open spec fn fragments_data(v: Seq<Fragment>) -> Seq<FragmentData> {
    v.map_values(|f: Fragment| f@)
}

/// Order of two values: by date if both are dates, then by instant, by
/// integer, by double; and by canonical text where none of these fits both.
pub open spec fn value_order(a: Data, b: Data) -> Order {
    if a is Date && b is Date {
        dates::date_order((a->Date_0, a->Date_1, a->Date_2), (b->Date_0, b->Date_1, b->Date_2))
    } else if a is DateTime && b is DateTime {
        dates::instant_order(a->DateTime_0.at, b->DateTime_0.at)
    } else if a is Int && b is Int {
        text::int_order(a->Int_0 as int, b->Int_0 as int)
    } else if query::number_of(a) is Some && query::number_of(b) is Some {
        value::float_order(query::number_of(a)->0, query::number_of(b)->0)
    } else {
        text::text_order(value::canonical_text(a), value::canonical_text(b))
    }
}

/// Order of two values that may be missing: a missing one comes last in either
/// direction.
pub open spec fn optional_order(a: Option<Data>, b: Option<Data>, desc: bool) -> Order {
    match (a, b) {
        (Some(x), Some(y)) => if desc {
            value_order(x, y).reversed()
        } else {
            value_order(x, y)
        },
        (Some(_), None) => Order::Less,
        (None, Some(_)) => Order::Greater,
        (None, None) => Order::Equal,
    }
}

/// Order of two fragments: by their order values, and by path where these are
/// equal.
pub open spec fn fragment_order(a: FragmentData, b: FragmentData, desc: bool) -> Order {
    let o = optional_order(a.order, b.order, desc);
    if o == Order::Equal {
        text::text_order(a.path, b.path)
    } else {
        o
    }
}

/// Whether `a` may stand before `b`.
pub open spec fn may_precede(a: FragmentData, b: FragmentData, desc: bool) -> bool {
    fragment_order(a, b, desc) != Order::Greater
}

/// Whether every fragment may stand before those that follow it.
pub open spec fn in_order(s: Seq<FragmentData>, desc: bool) -> bool {
    forall|i: int, j: int|
        0 <= i < j < s.len() ==> may_precede(#[trigger] s[i], #[trigger] s[j], desc)
}

/// Whether the order of these fragments is transitive. It is where their
/// values are of one kind; values of several kinds can be in a circle.
pub open spec fn consistent(ms: Multiset<FragmentData>, desc: bool) -> bool {
    forall|a: FragmentData, b: FragmentData, c: FragmentData|
        ms.contains(a) && ms.contains(b) && ms.contains(c) && #[trigger] may_precede(a, b, desc)
            && #[trigger] may_precede(b, c, desc) ==> may_precede(a, c, desc)
}

/// Whether `ordered` holds the fragments of `s`, in order wherever there is a
/// consistent one.
pub open spec fn is_ordering(ordered: Seq<FragmentData>, s: Seq<FragmentData>, desc: bool) -> bool {
    &&& ordered.to_multiset() == s.to_multiset()
    &&& consistent(s.to_multiset(), desc) ==> in_order(ordered, desc)
}

/// Text order turns round with its arguments.
pub proof fn text_order_reverses(a: Seq<char>, b: Seq<char>)
    ensures
        text::text_order(b, a) == text::text_order(a, b).reversed(),
{
    text::precedes_irreflexive(a);
    text::precedes_total(a, b);
    if text::precedes(a, b) && text::precedes(b, a) {
        text::precedes_transitive(a, b, a);
    }
}

/// The order of fragments turns round with its arguments.
pub proof fn fragment_order_reverses(a: FragmentData, b: FragmentData, desc: bool)
    ensures
        fragment_order(b, a, desc) == fragment_order(a, b, desc).reversed(),
{
    text_order_reverses(a.path, b.path);
    match (a.order, b.order) {
        (Some(x), Some(y)) => {
            text_order_reverses(value::canonical_text(x), value::canonical_text(y));
        },
        _ => {},
    }
}

fn compare_values(a: &Value, b: &Value) -> (r: Order)
    ensures
        r == value_order(a@, b@),
{
    proof {
        kinds_shown(a);
        kinds_shown(b);
    }
    match (a, b) {
        (Value::Date(x), Value::Date(y)) => x.compare(y),
        (Value::DateTime(x), Value::DateTime(y)) => x.instant().compare(&y.instant()),
        (Value::Int(x), Value::Int(y)) => text::compare_ints(*x, *y),
        (Value::Int(x), Value::Float(y)) => value::compare_floats(
            value::float_of_int(*x),
            y.bits,
        ),
        (Value::Float(x), Value::Int(y)) => value::compare_floats(
            x.bits,
            value::float_of_int(*y),
        ),
        (Value::Float(x), Value::Float(y)) => value::compare_floats(x.bits, y.bits),
        _ => text::compare(a.canonical_string().as_str(), b.canonical_string().as_str()),
    }
}

proof fn kinds_shown(v: &Value)
    ensures
        v@ is Date <==> *v is Date,
        v@ is DateTime <==> *v is DateTime,
        v@ is Int <==> *v is Int,
        v@ is Float <==> *v is Float,
{
}

fn order_values(a: Option<&Value>, b: Option<&Value>, desc: bool) -> (r: Order)
    ensures
        r == optional_order(opt_data(a), opt_data(b), desc),
{
    match (a, b) {
        (Some(x), Some(y)) => {
            let base = compare_values(x, y);
            if desc {
                base.reverse()
            } else {
                base
            }
        },
        (Some(_), None) => Order::Less,
        (None, Some(_)) => Order::Greater,
        (None, None) => Order::Equal,
    }
}

fn compare_fragments(a: &Fragment, b: &Fragment, desc: bool) -> (r: Order)
    ensures
        r == fragment_order(a@, b@, desc),
{
    let o = order_values(a.order_value, b.order_value, desc);
    match o {
        Order::Equal => text::compare(a.path.as_str(), b.path.as_str()),
        _ => o,
    }
}

/// Two runs put into one: the next fragment is that of the first run, unless it
/// has to stand behind that of the second.
pub open spec fn merged(a: Seq<FragmentData>, b: Seq<FragmentData>, desc: bool) -> Seq<FragmentData>
    decreases a.len() + b.len(),
{
    if a.len() == 0 {
        b
    } else if b.len() == 0 {
        a
    } else if may_precede(a[0], b[0], desc) {
        seq![a[0]] + merged(a.drop_first(), b, desc)
    } else {
        seq![b[0]] + merged(a, b.drop_first(), desc)
    }
}

/// The order that fragments are put in: each half is arranged, and the two are
/// put into one. It is fixed even where values of several kinds are in a
/// circle, and no order suits them all.
pub open spec fn arranged(s: Seq<FragmentData>, desc: bool) -> Seq<FragmentData>
    decreases s.len(),
{
    if s.len() <= 1 {
        s
    } else {
        let half = s.len() as int / 2;
        merged(arranged(s.take(half), desc), arranged(s.skip(half), desc), desc)
    }
}

/// Puts two runs into one.
fn merge_runs<'a>(a: Vec<Fragment<'a>>, b: Vec<Fragment<'a>>, desc: bool) -> (r: Vec<Fragment<'a>>)
    ensures
        fragments_data(r@) == merged(fragments_data(a@), fragments_data(b@), desc),
{
    let ghost fa = fragments_data(a@);
    let ghost fb = fragments_data(b@);
    let mut x = lists::reversed(a);
    let mut y = lists::reversed(b);
    let mut out: Vec<Fragment<'a>> = Vec::new();
    let ghost mut i: int = 0;
    let ghost mut j: int = 0;
    proof {
        assert(fa.skip(0) =~= fa);
        assert(fb.skip(0) =~= fb);
        assert(fragments_data(out@) + merged(fa, fb, desc) =~= merged(fa, fb, desc));
    }
    while x.len() > 0 || y.len() > 0
        invariant
            0 <= i <= fa.len(),
            0 <= j <= fb.len(),
            x@.len() == fa.len() - i,
            y@.len() == fb.len() - j,
            forall|k: int| 0 <= k < x@.len() ==> (#[trigger] x@[k])@ == fa[fa.len() - 1 - k],
            forall|k: int| 0 <= k < y@.len() ==> (#[trigger] y@[k])@ == fb[fb.len() - 1 - k],
            fragments_data(out@) + merged(fa.skip(i), fb.skip(j), desc) == merged(fa, fb, desc),
        decreases x@.len() + y@.len(),
    {
        let from_a = if x.len() == 0 {
            false
        } else if y.len() == 0 {
            true
        } else {
            match compare_fragments(&x[x.len() - 1], &y[y.len() - 1], desc) {
                Order::Greater => false,
                _ => true,
            }
        };
        let ghost before = fragments_data(out@);
        let ghost left = merged(fa.skip(i), fb.skip(j), desc);
        if from_a {
            match x.pop() {
                Some(f) => {
                    out.push(f);
                    proof {
                        assert(f@ == fa[i]);
                        assert(fa.skip(i).drop_first() =~= fa.skip(i + 1));
                        let rest = merged(fa.skip(i + 1), fb.skip(j), desc);
                        if fb.skip(j).len() == 0 {
                            assert(fb.skip(j) =~= seq![]);
                            assert(rest =~= fa.skip(i + 1));
                        }
                        assert(left =~= seq![f@] + rest);
                        assert(fragments_data(out@) =~= before.push(f@));
                        assert(before.push(f@) + rest =~= before + left);
                        i = i + 1;
                    }
                },
                None => {},
            }
        } else {
            match y.pop() {
                Some(f) => {
                    out.push(f);
                    proof {
                        assert(f@ == fb[j]);
                        assert(fb.skip(j).drop_first() =~= fb.skip(j + 1));
                        let rest = merged(fa.skip(i), fb.skip(j + 1), desc);
                        if fa.skip(i).len() == 0 {
                            assert(rest =~= fb.skip(j + 1));
                        }
                        assert(left =~= seq![f@] + rest);
                        assert(fragments_data(out@) =~= before.push(f@));
                        assert(before.push(f@) + rest =~= before + left);
                        j = j + 1;
                    }
                },
                None => {},
            }
        }
    }
    proof {
        assert(merged(fa.skip(i), fb.skip(j), desc) =~= seq![]);
        assert(fragments_data(out@) + merged(fa.skip(i), fb.skip(j), desc) =~= fragments_data(out@));
    }
    out
}

proof fn one_more(x: FragmentData, rest: Seq<FragmentData>)
    ensures
        (seq![x] + rest).to_multiset() == rest.to_multiset().insert(x),
{
    broadcast use vstd::seq_lib::group_to_multiset_ensures;
    vstd::seq_lib::lemma_multiset_commutative(seq![x], rest);
    assert(seq![x] =~= Seq::<FragmentData>::empty().push(x));
    assert(seq![x].to_multiset() =~= Multiset::<FragmentData>::empty().insert(x));
    assert((seq![x] + rest).to_multiset() =~= rest.to_multiset().insert(x));
}

/// Two runs put into one hold the fragments of both.
proof fn merged_keeps(a: Seq<FragmentData>, b: Seq<FragmentData>, desc: bool)
    ensures
        merged(a, b, desc).to_multiset() == a.to_multiset().add(b.to_multiset()),
        merged(a, b, desc).len() == a.len() + b.len(),
    decreases a.len() + b.len(),
{
    broadcast use vstd::seq_lib::group_to_multiset_ensures;
    if a.len() == 0 {
        assert(a.to_multiset().add(b.to_multiset()) =~= b.to_multiset());
    } else if b.len() == 0 {
        assert(a.to_multiset().add(b.to_multiset()) =~= a.to_multiset());
    } else if may_precede(a[0], b[0], desc) {
        let rest = a.drop_first();
        merged_keeps(rest, b, desc);
        one_more(a[0], merged(rest, b, desc));
        one_more(a[0], rest);
        assert(a =~= seq![a[0]] + rest);
        assert(merged(a, b, desc).to_multiset() =~= a.to_multiset().add(b.to_multiset()));
    } else {
        let rest = b.drop_first();
        merged_keeps(a, rest, desc);
        one_more(b[0], merged(a, rest, desc));
        one_more(b[0], rest);
        assert(b =~= seq![b[0]] + rest);
        assert(merged(a, b, desc).to_multiset() =~= a.to_multiset().add(b.to_multiset()));
    }
}

/// Two runs that are each in order, put into one, are in order.
proof fn merged_in_order(a: Seq<FragmentData>, b: Seq<FragmentData>, desc: bool)
    requires
        consistent(a.to_multiset().add(b.to_multiset()), desc),
        in_order(a, desc),
        in_order(b, desc),
    ensures
        in_order(merged(a, b, desc), desc),
    decreases a.len() + b.len(),
{
    broadcast use vstd::seq_lib::group_to_multiset_ensures;
    if a.len() > 0 && b.len() > 0 {
        let first = may_precede(a[0], b[0], desc);
        let x = if first {
            a[0]
        } else {
            b[0]
        };
        let p = if first {
            a.drop_first()
        } else {
            a
        };
        let q = if first {
            b
        } else {
            b.drop_first()
        };
        let ms = a.to_multiset().add(b.to_multiset());
        fragment_order_reverses(a[0], b[0], desc);
        assert(first || may_precede(b[0], a[0], desc));
        assert forall|i: int| 0 <= i < a.len() implies ms.contains(#[trigger] a[i]) by {
            assert(a.contains(a[i]));
        }
        assert forall|i: int| 0 <= i < b.len() implies ms.contains(#[trigger] b[i]) by {
            assert(b.contains(b[i]));
        }
        assert forall|i: int| 0 <= i < p.len() implies may_precede(x, #[trigger] p[i], desc) by {
            let l = if first {
                i + 1
            } else {
                i
            };
            assert(p[i] == a[l]);
            assert(ms.contains(a[0]) && ms.contains(b[0]) && ms.contains(a[l]));
            if l > 0 {
                assert(may_precede(a[0], a[l], desc));
            }
        }
        assert forall|i: int| 0 <= i < q.len() implies may_precede(x, #[trigger] q[i], desc) by {
            let l = if first {
                i
            } else {
                i + 1
            };
            assert(q[i] == b[l]);
            assert(ms.contains(a[0]) && ms.contains(b[0]) && ms.contains(b[l]));
            if l > 0 {
                assert(may_precede(b[0], b[l], desc));
            }
        }
        assert(in_order(p, desc)) by {
            assert forall|i: int, j: int| 0 <= i < j < p.len() implies may_precede(
                #[trigger] p[i],
                #[trigger] p[j],
                desc,
            ) by {
                if first {
                    assert(may_precede(a[i + 1], a[j + 1], desc));
                }
            }
        }
        assert(in_order(q, desc)) by {
            assert forall|i: int, j: int| 0 <= i < j < q.len() implies may_precede(
                #[trigger] q[i],
                #[trigger] q[j],
                desc,
            ) by {
                if !first {
                    assert(may_precede(b[i + 1], b[j + 1], desc));
                }
            }
        }
        let smaller = p.to_multiset().add(q.to_multiset());
        assert forall|f: FragmentData| smaller.contains(f) implies ms.contains(f) by {
            if p.contains(f) {
                let i = p.index_of(f);
                assert(f == if first {
                    a[i + 1]
                } else {
                    a[i]
                });
            } else {
                assert(q.contains(f));
                let i = q.index_of(f);
                assert(f == if first {
                    b[i]
                } else {
                    b[i + 1]
                });
            }
        }
        merged_in_order(p, q, desc);
        merged_keeps(p, q, desc);
        let rest = merged(p, q, desc);
        let all = merged(a, b, desc);
        assert(all == seq![x] + rest);
        assert forall|i: int, j: int| 0 <= i < j < all.len() implies may_precede(
            #[trigger] all[i],
            #[trigger] all[j],
            desc,
        ) by {
            assert(all[j] == rest[j - 1]);
            if i == 0 {
                let f = rest[j - 1];
                assert(rest.contains(f));
                assert(smaller.contains(f));
                if p.contains(f) {
                    assert(p[p.index_of(f)] == f);
                } else {
                    assert(q.contains(f));
                    assert(q[q.index_of(f)] == f);
                }
            } else {
                assert(may_precede(rest[i - 1], rest[j - 1], desc));
            }
        }
    }
}

/// Arranging fragments puts them in order wherever there is a consistent one.
pub proof fn arranged_is_ordering(s: Seq<FragmentData>, desc: bool)
    ensures
        is_ordering(arranged(s, desc), s, desc),
        arranged(s, desc).len() == s.len(),
    decreases s.len(),
{
    broadcast use vstd::seq_lib::group_to_multiset_ensures;
    if s.len() > 1 {
        let half = s.len() as int / 2;
        let a = s.take(half);
        let b = s.skip(half);
        assert(s =~= a + b);
        vstd::seq_lib::lemma_multiset_commutative(a, b);
        arranged_is_ordering(a, desc);
        arranged_is_ordering(b, desc);
        merged_keeps(arranged(a, desc), arranged(b, desc), desc);
        if consistent(s.to_multiset(), desc) {
            assert(consistent(a.to_multiset(), desc));
            assert(consistent(b.to_multiset(), desc));
            merged_in_order(arranged(a, desc), arranged(b, desc), desc);
        }
    }
}

/// Puts fragments in order.
pub fn sort_fragments<'a>(v: Vec<Fragment<'a>>, desc: bool) -> (r: Vec<Fragment<'a>>)
    ensures
        fragments_data(r@) == arranged(fragments_data(v@), desc),
        is_ordering(fragments_data(r@), fragments_data(v@), desc),
    decreases v@.len(),
{
    let n: usize = v.len();
    let ghost all = fragments_data(v@);
    proof {
        arranged_is_ordering(all, desc);
    }
    if n <= 1 {
        return v;
    }
    let mut a = v;
    let b = a.split_off(n / 2);
    proof {
        assert(fragments_data(a@) =~= all.take(n as int / 2));
        assert(fragments_data(b@) =~= all.skip(n as int / 2));
    }
    let x = sort_fragments(a, desc);
    let y = sort_fragments(b, desc);
    merge_runs(x, y, desc)
}

/// Whether no two fragments have the same path.
pub open spec fn paths_differ(s: Seq<FragmentData>) -> bool {
    forall|i: int, j: int|
        0 <= i < j < s.len() ==> (#[trigger] s[i]).path != (#[trigger] s[j]).path
}

/// Fragments of different paths have one order at most: two lists of the same
/// fragments that are both in a consistent order are the same.
pub proof fn ordering_is_unique(a: Seq<FragmentData>, b: Seq<FragmentData>, desc: bool)
    requires
        a.to_multiset() == b.to_multiset(),
        in_order(a, desc),
        in_order(b, desc),
        paths_differ(a),
    ensures
        a == b,
    decreases a.len(),
{
    broadcast use vstd::seq_lib::group_to_multiset_ensures;
    assert(a.len() == a.to_multiset().len());
    assert(b.len() == b.to_multiset().len());
    if a.len() > 0 {
        assert(a.contains(a[0]));
        assert(b.to_multiset().contains(a[0]));
        assert(b.contains(a[0]));
        let k = b.index_of(a[0]);
        assert(b.contains(b[0]));
        assert(a.to_multiset().contains(b[0]));
        assert(a.contains(b[0]));
        let l = a.index_of(b[0]);
        if k > 0 && l > 0 {
            assert(may_precede(b[0], b[k], desc));
            assert(may_precede(a[0], a[l], desc));
            fragment_order_reverses(a[0], b[0], desc);
            assert(fragment_order(a[0], b[0], desc) == Order::Equal);
            assert(text::text_order(a[0].path, b[0].path) == Order::Equal);
            assert(a[0].path != a[l].path);
        }
        assert(a[0] == b[0]);
        let x = a.drop_first();
        let y = b.drop_first();
        assert(a =~= seq![a[0]] + x);
        assert(b =~= seq![b[0]] + y);
        vstd::seq_lib::lemma_multiset_commutative(seq![a[0]], x);
        vstd::seq_lib::lemma_multiset_commutative(seq![b[0]], y);
        let one = seq![a[0]].to_multiset();
        assert(x.to_multiset() =~= a.to_multiset().sub(one));
        assert(y.to_multiset() =~= b.to_multiset().sub(one));
        assert(in_order(x, desc)) by {
            assert forall|i: int, j: int| 0 <= i < j < x.len() implies may_precede(
                #[trigger] x[i],
                #[trigger] x[j],
                desc,
            ) by {
                assert(may_precede(a[i + 1], a[j + 1], desc));
            }
        }
        assert(in_order(y, desc)) by {
            assert forall|i: int, j: int| 0 <= i < j < y.len() implies may_precede(
                #[trigger] y[i],
                #[trigger] y[j],
                desc,
            ) by {
                assert(may_precede(b[i + 1], b[j + 1], desc));
            }
        }
        assert(paths_differ(x)) by {
            assert forall|i: int, j: int| 0 <= i < j < x.len() implies (#[trigger] x[i]).path != (
            #[trigger] x[j]).path by {
                assert(a[i + 1].path != a[j + 1].path);
            }
        }
        ordering_is_unique(x, y, desc);
    } else {
        assert(a =~= b);
    }
}

/// Whether the paths of the fragments ascend.
pub open spec fn paths_ascend(s: Seq<FragmentData>) -> bool {
    forall|i: int, j: int|
        0 <= i < j < s.len() ==> text::precedes((#[trigger] s[i]).path, (#[trigger] s[j]).path)
}

/// Ascending paths are different paths.
pub proof fn ascending_paths_differ(s: Seq<FragmentData>)
    requires
        paths_ascend(s),
    ensures
        paths_differ(s),
{
    assert forall|i: int, j: int| 0 <= i < j < s.len() implies (#[trigger] s[i]).path != (
    #[trigger] s[j]).path by {
        text::precedes_irreflexive(s[i].path);
    }
}

/// The same fragments in another order have different paths too.
pub proof fn same_fragments_differ(s: Seq<FragmentData>, t: Seq<FragmentData>)
    requires
        paths_differ(s),
        s.to_multiset() == t.to_multiset(),
    ensures
        paths_differ(t),
{
    broadcast use vstd::seq_lib::group_to_multiset_ensures;
    assert(s.no_duplicates()) by {
        assert forall|i: int, j: int| 0 <= i < s.len() && 0 <= j < s.len() && i != j implies s[i]
            != s[j] by {
            if i < j {
                assert(s[i].path != s[j].path);
            } else {
                assert(s[j].path != s[i].path);
            }
        }
    }
    s.lemma_multiset_has_no_duplicates();
    assert forall|i: int, j: int| 0 <= i < j < t.len() implies (#[trigger] t[i]).path != (
    #[trigger] t[j]).path by {
        assert(t.contains(t[i]) && t.contains(t[j]));
        assert(s.to_multiset().contains(t[i]) && s.to_multiset().contains(t[j]));
        assert(s.contains(t[i]) && s.contains(t[j]));
        let k = s.index_of(t[i]);
        let l = s.index_of(t[j]);
        if t[i] == t[j] {
            twice_counts(t, i, j);
        } else {
            assert(k != l);
            if k < l {
                assert(s[k].path != s[l].path);
            } else {
                assert(s[l].path != s[k].path);
            }
        }
    }
}

proof fn twice_counts(t: Seq<FragmentData>, i: int, j: int)
    requires
        0 <= i < j < t.len(),
        t[i] == t[j],
    ensures
        t.to_multiset().count(t[i]) >= 2,
{
    broadcast use vstd::seq_lib::group_to_multiset_ensures;
    let a = t.take(j);
    let b = t.skip(j);
    assert(t =~= a + b);
    vstd::seq_lib::lemma_multiset_commutative(a, b);
    assert(a[i] == t[i]);
    assert(b[0] == t[j]);
    assert(a.contains(t[i]));
    assert(b.contains(t[i]));
}

/// Without order values, fragments are ordered by path alone: those whose paths
/// ascend stay as they are.
pub proof fn unordered_is_by_path(ordered: Seq<FragmentData>, s: Seq<FragmentData>, desc: bool)
    requires
        is_ordering(ordered, s, desc),
        paths_ascend(s),
        forall|i: int| 0 <= i < s.len() ==> (#[trigger] s[i]).order is None,
    ensures
        ordered == s,
{
    integers_are_consistent(s, desc);
    assert(in_order(s, desc)) by {
        assert forall|i: int, j: int| 0 <= i < j < s.len() implies may_precede(
            #[trigger] s[i],
            #[trigger] s[j],
            desc,
        ) by {
            assert(s[i].order is None && s[j].order is None);
            assert(text::precedes(s[i].path, s[j].path));
        }
    }
    ascending_paths_differ(s);
    ordering_is_unique(s, ordered, desc);
}

/// Integers order consistently: where every order value is an integer, or is
/// missing, the fragments have exactly one order.
pub proof fn integers_are_consistent(s: Seq<FragmentData>, desc: bool)
    requires
        forall|i: int|
            0 <= i < s.len() ==> (#[trigger] s[i]).order is None || s[i].order->0 is Int,
    ensures
        consistent(s.to_multiset(), desc),
{
    broadcast use vstd::seq_lib::group_to_multiset_ensures;
    let ms = s.to_multiset();
    assert forall|a: FragmentData, b: FragmentData, c: FragmentData|
        ms.contains(a) && ms.contains(b) && ms.contains(c) && #[trigger] may_precede(a, b, desc)
            && #[trigger] may_precede(b, c, desc) implies may_precede(a, c, desc) by {
        assert(s.contains(a) && s.contains(b) && s.contains(c));
        let i = s.index_of(a);
        let j = s.index_of(b);
        let k = s.index_of(c);
        assert(s[i] == a && s[j] == b && s[k] == c);
        paths_chain(a.path, b.path, c.path);
    }
}

/// Texts order consistently, as integers do.
pub proof fn texts_are_consistent(s: Seq<FragmentData>, desc: bool)
    requires
        forall|i: int|
            0 <= i < s.len() ==> (#[trigger] s[i]).order is None || s[i].order->0 is Text,
    ensures
        consistent(s.to_multiset(), desc),
{
    broadcast use vstd::seq_lib::group_to_multiset_ensures;
    let ms = s.to_multiset();
    assert forall|a: FragmentData, b: FragmentData, c: FragmentData|
        ms.contains(a) && ms.contains(b) && ms.contains(c) && #[trigger] may_precede(a, b, desc)
            && #[trigger] may_precede(b, c, desc) implies may_precede(a, c, desc) by {
        assert(s.contains(a) && s.contains(b) && s.contains(c));
        let i = s.index_of(a);
        let j = s.index_of(b);
        let k = s.index_of(c);
        assert(s[i] == a && s[j] == b && s[k] == c);
        paths_chain(a.path, b.path, c.path);
        if a.order is Some && b.order is Some && c.order is Some {
            let x = a.order->0->Text_0;
            let y = b.order->0->Text_0;
            let z = c.order->0->Text_0;
            paths_chain(x, y, z);
            paths_chain(z, y, x);
            text_order_reverses(x, y);
            text_order_reverses(y, z);
            text_order_reverses(x, z);
        }
    }
}

proof fn paths_chain(a: Seq<char>, b: Seq<char>, c: Seq<char>)
    ensures
        text::text_order(a, b) != Order::Greater && text::text_order(b, c) != Order::Greater
            ==> text::text_order(a, c) != Order::Greater,
        text::text_order(a, b) == Order::Less && text::text_order(b, c) != Order::Greater
            ==> text::text_order(a, c) == Order::Less,
        text::text_order(a, b) != Order::Greater && text::text_order(b, c) == Order::Less
            ==> text::text_order(a, c) == Order::Less,
{
    text::precedes_irreflexive(a);
    text::precedes_total(a, b);
    text::precedes_total(b, c);
    text::precedes_total(a, c);
    if text::precedes(a, b) && text::precedes(b, c) {
        text::precedes_transitive(a, b, c);
    }
    if text::precedes(a, c) && text::precedes(c, a) {
        text::precedes_transitive(a, c, a);
    }
}

/// Dates order consistently, as integers do; so do date-times.
pub proof fn dates_are_consistent(s: Seq<FragmentData>, desc: bool)
    requires
        (forall|i: int|
            0 <= i < s.len() ==> (#[trigger] s[i]).order is None || s[i].order->0 is Date) || (
        forall|i: int|
            0 <= i < s.len() ==> (#[trigger] s[i]).order is None || s[i].order->0 is DateTime),
    ensures
        consistent(s.to_multiset(), desc),
{
    broadcast use vstd::seq_lib::group_to_multiset_ensures;
    let ms = s.to_multiset();
    assert forall|a: FragmentData, b: FragmentData, c: FragmentData|
        ms.contains(a) && ms.contains(b) && ms.contains(c) && #[trigger] may_precede(a, b, desc)
            && #[trigger] may_precede(b, c, desc) implies may_precede(a, c, desc) by {
        assert(s.contains(a) && s.contains(b) && s.contains(c));
        let i = s.index_of(a);
        let j = s.index_of(b);
        let k = s.index_of(c);
        assert(s[i] == a && s[j] == b && s[k] == c);
        paths_chain(a.path, b.path, c.path);
    }
}

/// Whether a fragment lacks the key of the guard.
pub open spec fn lacks_kind() -> spec_fn(FragmentData) -> bool {
    |f: FragmentData| f.kind is None
}

/// Whether a fragment has the value `v` for the key of the guard.
pub open spec fn has_kind(v: Seq<char>) -> spec_fn(FragmentData) -> bool {
    |f: FragmentData| f.kind is Some && value::canonical_text(f.kind->0) == v
}

/// The paths of fragments.
pub open spec fn paths_of(s: Seq<FragmentData>) -> Seq<Seq<char>> {
    s.map_values(|f: FragmentData| f.path)
}

/// Whether some fragment has the value `v` for the key of the guard.
pub open spec fn some_has_kind(s: Seq<FragmentData>, v: Seq<char>) -> bool {
    exists|i: int| 0 <= i < s.len() && has_kind(v)(#[trigger] s[i])
}

/// The fragments' paths, grouped by their values for the key of the guard.
pub open spec fn groups(s: Seq<FragmentData>) -> Map<Seq<char>, Seq<Seq<char>>> {
    Map::new(
        |v: Seq<char>| some_has_kind(s, v),
        |v: Seq<char>| paths_of(s.filter(has_kind(v))),
    )
}

/// Whether all fragments share one value for the key of the guard.
pub open spec fn of_one_kind(s: Seq<FragmentData>) -> bool {
    &&& forall|i: int| 0 <= i < s.len() ==> (#[trigger] s[i]).kind is Some
    &&& forall|i: int, j: int|
        0 <= i < s.len() && 0 <= j < s.len() ==> value::canonical_text(
            (#[trigger] s[i]).kind->0,
        ) == value::canonical_text((#[trigger] s[j]).kind->0)
}

/// One line of the guard's message: a value, and the paths that have it.
pub open spec fn group_line(v: Seq<char>, paths: Seq<Seq<char>>) -> Seq<char> {
    "  "@ + v + ": "@ + text::joined(paths, ", "@) + "\n"@
}

/// The lines of the guard's message, a value on each, in ascending order.
pub open spec fn group_lines(by_value: Map<Seq<char>, Seq<Seq<char>>>) -> Seq<Seq<char>> {
    sorted::ascending(by_value.dom()).map_values(|v: Seq<char>| group_line(v, by_value[v]))
}

/// What the guard says when it refuses: the values where there are several,
/// each with its paths, and the paths that lack the key.
pub open spec fn guard_message(
    key: Seq<char>,
    missing: Seq<Seq<char>>,
    by_value: Map<Seq<char>, Seq<Seq<char>>>,
) -> Seq<char> {
    let head = "__anw-kind="@ + key
        + ": merge requires every matched note to share one value for `"@ + key + "`\n"@;
    let values = if group_lines(by_value).len() > 1 {
        "distinct values found:\n"@ + text::joined(group_lines(by_value), ""@)
    } else {
        seq![]
    };
    let lacking = if missing.len() > 0 {
        "notes missing the key: "@ + text::joined(missing, ", "@) + "\n"@
    } else {
        seq![]
    };
    head + values + lacking
}

/// What the guard says of fragments that it refuses.
pub open spec fn guard_refusal(key: Seq<char>, s: Seq<FragmentData>) -> Seq<char> {
    guard_message(key, paths_of(s.filter(lacks_kind())), groups(s))
}

/// What the groups of a map hold.
pub open spec fn group_views(m: Map<Seq<char>, Vec<String>>) -> Map<Seq<char>, Seq<Seq<char>>> {
    m.map_values(|v: Vec<String>| text::views(v@))
}

fn format_kind_error(key: &str, missing: &Vec<String>, by_value: &SortedMap<Vec<String>>) -> (r:
    String)
    ensures
        r@ == guard_message(key@, text::views(missing@), group_views(by_value@)),
{
    let mut s = text::concat("__anw-kind=", key);
    s.append(": merge requires every matched note to share one value for `");
    s.append(key);
    s.append("`\n");
    let n: usize = by_value.len();
    let ghost d = group_views(by_value@);
    let ghost keys = sorted::ascending(by_value@.dom());
    let ghost head = s@;
    proof {
        assert(d.dom() =~= by_value@.dom());
        assert(group_lines(d).len() == keys.len());
        assert(head + seq![] =~= head);
    }
    if n > 1 {
        s.append("distinct values found:\n");
        let mut lines: Vec<String> = Vec::new();
        let mut i: usize = 0;
        while i < n
            invariant
                i <= n == keys.len(),
                keys == sorted::ascending(by_value@.dom()),
                sorted::lists(keys, by_value@.dom()),
                d == group_views(by_value@),
                lines@.len() == i,
                forall|j: int|
                    0 <= j < i ==> (#[trigger] lines@[j])@ == group_line(keys[j], d[keys[j]]),
            decreases n - i,
        {
            let v = by_value.key_at(i);
            let paths = by_value.value_at(i);
            let mut line = text::concat("  ", v.as_str());
            line.append(": ");
            line.append(text::join(paths, ", ").as_str());
            line.append("\n");
            lines.push(line);
            i += 1;
        }
        assert(text::views(lines@) =~= group_lines(d));
        s.append(text::join(&lines, "").as_str());
        proof {
            assert(s@ =~= head + ("distinct values found:\n"@ + text::joined(
                group_lines(d),
                ""@,
            )));
        }
    }
    let ghost so_far = s@;
    if missing.len() > 0 {
        s.append("notes missing the key: ");
        s.append(text::join(missing, ", ").as_str());
        s.append("\n");
        proof {
            assert(s@ =~= so_far + ("notes missing the key: "@ + text::joined(
                text::views(missing@),
                ", "@,
            ) + "\n"@));
        }
    } else {
        assert(so_far + seq![] =~= so_far);
    }
    s
}

/// Checks that all fragments share one value for a key; otherwise says which
/// values and which paths are at odds.
pub fn check_kind(key: &str, frags: &Vec<Fragment>) -> (r: Option<String>)
    ensures
        r is None <==> of_one_kind(fragments_data(frags@)),
        r matches Some(m) ==> m@ == guard_refusal(key@, fragments_data(frags@)),
{
    let ghost all = fragments_data(frags@);
    let mut missing: Vec<String> = Vec::new();
    let mut by_value: SortedMap<Vec<String>> = SortedMap::new();
    let mut i: usize = 0;
    proof {
        reveal(Seq::filter);
        assert(text::views(missing@) =~= paths_of(all.take(0).filter(lacks_kind())));
        assert(group_views(by_value@) =~= groups(all.take(0)));
    }
    while i < frags.len()
        invariant
            i <= frags@.len(),
            all == fragments_data(frags@),
            text::views(missing@) == paths_of(all.take(i as int).filter(lacks_kind())),
            group_views(by_value@) == groups(all.take(i as int)),
        decreases frags@.len() - i,
    {
        let ghost prev = all.take(i as int);
        let ghost next = all.take(i + 1);
        let f = &frags[i];
        let ghost gm = text::views(missing@);
        let ghost gv = by_value@;
        proof {
            assert(next.drop_last() =~= prev);
            assert(next.last() == f@);
        }
        match f.kind_value {
            None => {
                missing.push(f.path.clone());
                proof {
                    reveal(Seq::filter);
                    assert(text::views(missing@) =~= gm.push(f@.path));
                    assert(paths_of(next.filter(lacks_kind())) =~= paths_of(
                        prev.filter(lacks_kind()),
                    ).push(f@.path));
                    assert forall|v: Seq<char>| some_has_kind(next, v) <==> some_has_kind(
                        prev,
                        v,
                    ) by {
                        kind_grows(prev, f@, v);
                        assert(next =~= prev.push(f@));
                    }
                    assert(groups(next) =~= groups(prev));
                }
            },
            Some(v) => {
                let kind = v.canonical_string();
                let mut paths: Vec<String> = match by_value.get(kind.as_str()) {
                    Some(found) => copy_list(found),
                    None => Vec::new(),
                };
                let ghost had = text::views(paths@);
                paths.push(f.path.clone());
                let ghost k = kind@;
                by_value.insert(kind, paths);
                proof {
                    reveal(Seq::filter);
                    assert(text::views(paths@) =~= had.push(f@.path));
                    assert(next =~= prev.push(f@));
                    if !groups(prev).contains_key(k) {
                        none_of_kind(prev, k);
                        assert(had =~= seq![]);
                        assert(paths_of(prev.filter(has_kind(k))) =~= seq![]);
                    } else {
                        assert(gv.contains_key(k));
                        assert(had == group_views(gv)[k]);
                    }
                    assert(had =~= paths_of(prev.filter(has_kind(k))));
                    assert forall|w: Seq<char>| some_has_kind(next, w) <==> some_has_kind(prev, w)
                        || w == k by {
                        kind_grows(prev, f@, w);
                    }
                    assert(paths_of(next.filter(has_kind(k))) =~= paths_of(
                        prev.filter(has_kind(k)),
                    ).push(f@.path));
                    assert(group_views(by_value@) =~= group_views(gv).insert(
                        k,
                        text::views(paths@),
                    ));
                    assert forall|w: Seq<char>| w != k implies next.filter(has_kind(w))
                        == prev.filter(has_kind(w)) by {}
                    assert(groups(next) =~= groups(prev).insert(k, text::views(paths@)));
                }
            },
        }
        i += 1;
    }
    let kinds: usize = by_value.len();
    proof {
        assert(all.take(i as int) =~= all);
        assert(group_views(by_value@).dom() =~= by_value@.dom());
        assert(groups(all).dom() =~= by_value@.dom());
        guard_agrees(all);
    }
    if missing.len() > 0 || kinds > 1 {
        Some(format_kind_error(key, &missing, &by_value))
    } else {
        None
    }
}

fn copy_list(v: &Vec<String>) -> (r: Vec<String>)
    ensures
        text::views(r@) == text::views(v@),
{
    let mut out: Vec<String> = Vec::new();
    let mut i: usize = 0;
    while i < v.len()
        invariant
            i <= v@.len(),
            out@.len() == i,
            forall|j: int| 0 <= j < i ==> (#[trigger] out@[j])@ == v@[j]@,
        decreases v@.len() - i,
    {
        out.push(v[i].clone());
        i += 1;
    }
    assert(text::views(out@) =~= text::views(v@));
    out
}

proof fn kind_grows(s: Seq<FragmentData>, f: FragmentData, v: Seq<char>)
    ensures
        some_has_kind(s.push(f), v) <==> some_has_kind(s, v) || has_kind(v)(f),
{
    let t = s.push(f);
    if some_has_kind(s, v) {
        let i = choose|i: int| 0 <= i < s.len() && has_kind(v)(#[trigger] s[i]);
        assert(has_kind(v)(t[i]));
    }
    if has_kind(v)(f) {
        assert(has_kind(v)(t[s.len() as int]));
    }
    if some_has_kind(t, v) {
        let i = choose|i: int| 0 <= i < t.len() && has_kind(v)(#[trigger] t[i]);
        if i < s.len() {
            assert(has_kind(v)(s[i]));
        }
    }
}

proof fn none_of_kind(s: Seq<FragmentData>, v: Seq<char>)
    requires
        !some_has_kind(s, v),
    ensures
        s.filter(has_kind(v)) == Seq::<FragmentData>::empty(),
    decreases s.len(),
{
    reveal(Seq::filter);
    if s.len() > 0 {
        let rest = s.drop_last();
        assert(s =~= rest.push(s.last()));
        kind_grows(rest, s.last(), v);
        none_of_kind(rest, v);
    }
}

proof fn all_kept(s: Seq<FragmentData>)
    ensures
        s.filter(lacks_kind()).len() == 0 <==> forall|i: int|
            0 <= i < s.len() ==> (#[trigger] s[i]).kind is Some,
    decreases s.len(),
{
    reveal(Seq::filter);
    if s.len() > 0 {
        let rest = s.drop_last();
        all_kept(rest);
        if s.filter(lacks_kind()).len() == 0 {
            assert forall|i: int| 0 <= i < s.len() implies (#[trigger] s[i]).kind is Some by {
                if i < rest.len() {
                    assert(rest[i].kind is Some);
                }
            }
        }
        if forall|i: int| 0 <= i < s.len() ==> (#[trigger] s[i]).kind is Some {
            assert forall|i: int| 0 <= i < rest.len() implies (#[trigger] rest[i]).kind is Some by {
                assert(s[i].kind is Some);
            }
            assert(s[s.len() - 1].kind is Some);
        }
    }
}

proof fn guard_agrees(s: Seq<FragmentData>)
    requires
        sorted::lists(sorted::ascending(groups(s).dom()), groups(s).dom()),
    ensures
        of_one_kind(s) <==> s.filter(lacks_kind()).len() == 0 && sorted::ascending(
            groups(s).dom(),
        ).len() <= 1,
{
    all_kept(s);
    let keys = sorted::ascending(groups(s).dom());
    if of_one_kind(s) && keys.len() > 1 {
        assert(keys.contains(keys[0]) && keys.contains(keys[1]));
        assert(groups(s).dom().contains(keys[0]) && groups(s).dom().contains(keys[1]));
        let i = choose|i: int| 0 <= i < s.len() && has_kind(keys[0])(#[trigger] s[i]);
        let j = choose|j: int| 0 <= j < s.len() && has_kind(keys[1])(#[trigger] s[j]);
        assert(value::canonical_text(s[i].kind->0) == value::canonical_text(s[j].kind->0));
        assert(text::precedes(keys[0], keys[1]));
        text::precedes_irreflexive(keys[0]);
    }
    if s.filter(lacks_kind()).len() == 0 && keys.len() <= 1 {
        assert forall|i: int, j: int| 0 <= i < s.len() && 0 <= j < s.len() implies value::canonical_text(
            (#[trigger] s[i]).kind->0,
        ) == value::canonical_text((#[trigger] s[j]).kind->0) by {
            let a = value::canonical_text(s[i].kind->0);
            let b = value::canonical_text(s[j].kind->0);
            assert(has_kind(a)(s[i]) && has_kind(b)(s[j]));
            assert(groups(s).dom().contains(a) && groups(s).dom().contains(b));
            assert(keys.contains(a) && keys.contains(b));
            assert(keys[keys.index_of(a)] == keys[keys.index_of(b)]);
        }
    }
}

/// How a fragment reads in the document: its source marker on a line of its
/// own, and its body.
pub open spec fn fragment_text(f: FragmentData) -> Seq<char> {
    "<!-- source: "@ + f.path + " -->\n"@ + f.body
}

/// The document that fragments make, a blank line between each two.
pub open spec fn document(s: Seq<FragmentData>) -> Seq<char> {
    text::joined(s.map_values(|f: FragmentData| fragment_text(f)), "\n\n"@)
}

/// Puts the first `n` fragments together into one document.
pub fn assemble(frags: &Vec<Fragment>, n: usize) -> (r: String)
    requires
        n <= frags@.len(),
    ensures
        r@ == document(fragments_data(frags@).take(n as int)),
{
    let ghost all = fragments_data(frags@).take(n as int);
    let mut parts: Vec<String> = Vec::new();
    let mut i: usize = 0;
    while i < n
        invariant
            i <= n <= frags@.len(),
            parts@.len() == i,
            forall|j: int| 0 <= j < i ==> (#[trigger] parts@[j])@ == fragment_text(frags@[j]@),
        decreases n - i,
    {
        let f = &frags[i];
        let mut part = text::concat("<!-- source: ", f.path.as_str());
        part.append(" -->\n");
        part.append(f.body.as_str());
        parts.push(part);
        i += 1;
    }
    assert(text::views(parts@) =~= all.map_values(|f: FragmentData| fragment_text(f)));
    text::join(&parts, "\n\n")
}

/// No fragments make an empty document.
pub proof fn empty_document()
    ensures
        document(Seq::<FragmentData>::empty()) == Seq::<char>::empty(),
{
}

// -- laws -------------------------------------------------------------------

/// Date-times are ordered by their instants: fewer seconds first, and of equal
/// seconds fewer nanoseconds; the offsets do not count.
pub proof fn date_times_order_in_time(s: dates::DateTimeData, t: dates::DateTimeData)
    ensures
        value_order(Data::DateTime(s), Data::DateTime(t)) == Order::Less <==> s.at.0 < t.at.0 || (
        s.at.0 == t.at.0 && s.at.1 < t.at.1),
        value_order(Data::DateTime(s), Data::DateTime(t)) == Order::Equal <==> s.at == t.at,
{
}

/// Dates are ordered as their days follow each other.
pub proof fn dates_order_by_day(a: (i32, u32, u32), b: (i32, u32, u32))
    requires
        dates::valid_date(a.0, a.1, a.2),
        dates::valid_date(b.0, b.1, b.2),
    ensures
        value_order(Data::Date(a.0, a.1, a.2), Data::Date(b.0, b.1, b.2)) == Order::Less
            <==> dates::day_number(a) < dates::day_number(b),
        value_order(Data::Date(a.0, a.1, a.2), Data::Date(b.0, b.1, b.2)) == Order::Equal <==> a
            == b,
{
    dates::dates_are_ordered_by_day(a, b);
}

/// Integers are ordered as such, doubles that are not negative by their bits,
/// and an integer and a double as doubles.
pub proof fn numbers_order_as_numbers(i: i64, j: i64, f: value::FloatData, g: value::FloatData)
    ensures
        value_order(Data::Int(i), Data::Int(j)) == Order::Less <==> i < j,
        value_order(Data::Int(i), Data::Int(j)) == Order::Equal <==> i == j,
        f.bits <= 0x7ff0_0000_0000_0000 && g.bits <= 0x7ff0_0000_0000_0000 ==> (value_order(
            Data::Float(f),
            Data::Float(g),
        ) == Order::Less <==> f.bits < g.bits),
        0x8000_0000_0000_0000 < f.bits <= 0xfff0_0000_0000_0000 && g.bits <= 0x7ff0_0000_0000_0000
            ==> value_order(Data::Float(f), Data::Float(g)) == Order::Less,
        0x8000_0000_0000_0000 <= f.bits <= 0xfff0_0000_0000_0000 && 0x8000_0000_0000_0000 <= g.bits
            <= 0xfff0_0000_0000_0000 ==> (value_order(Data::Float(f), Data::Float(g)) == Order::Less
            <==> f.bits > g.bits),
        g.bits == value::int_bits(i) ==> value_order(Data::Int(i), Data::Float(f)) == value_order(
            Data::Float(g),
            Data::Float(f),
        ) && value_order(Data::Float(f), Data::Int(i)) == value_order(
            Data::Float(f),
            Data::Float(g),
        ),
{
}

/// Texts are ordered from the front; values of two kinds by how they read.
pub proof fn texts_order_from_the_front(a: Seq<char>, b: Seq<char>, c: bool)
    ensures
        value_order(Data::Text(a), Data::Text(b)) == Order::Less <==> text::precedes(a, b),
        value_order(Data::Text(a), Data::Text(b)) == Order::Equal <==> a == b,
        value_order(Data::Text(a), Data::Bool(c)) == value_order(
            Data::Text(a),
            Data::Text(
                if c {
                    "true"@
                } else {
                    "false"@
                },
            ),
        ),
{
    text::precedes_irreflexive(a);
}

/// Ascending order goes by the values, descending order the other way round. A
/// fragment without a value comes after those with one in either direction, and
/// where the values are equal, or missing, the path decides, in ascending order
/// in either direction.
pub proof fn direction_turns_values_only(a: FragmentData, b: FragmentData, desc: bool)
    ensures
        a.order is Some && b.order is Some && value_order(a.order->0, b.order->0) == Order::Less
            ==> fragment_order(a, b, false) == Order::Less && fragment_order(a, b, true)
            == Order::Greater,
        a.order is Some && b.order is Some && value_order(a.order->0, b.order->0) == Order::Greater
            ==> fragment_order(a, b, false) == Order::Greater && fragment_order(a, b, true)
            == Order::Less,
        a.order is Some && b.order is None ==> fragment_order(a, b, desc) == Order::Less,
        a.order is None && b.order is Some ==> fragment_order(a, b, desc) == Order::Greater,
        (a.order is None && b.order is None) || (a.order is Some && b.order is Some && value_order(
            a.order->0,
            b.order->0,
        ) == Order::Equal) ==> (fragment_order(a, b, desc) == Order::Less <==> text::precedes(
            a.path,
            b.path,
        )),
{
    text::precedes_irreflexive(a.path);
}

/// Doubles order consistently, as integers do, as long as all of them are
/// numbers.
pub proof fn doubles_are_consistent(s: Seq<FragmentData>, desc: bool)
    requires
        forall|i: int|
            0 <= i < s.len() ==> (#[trigger] s[i]).order is None || (s[i].order->0 is Float
                && !value::is_nan(s[i].order->0->Float_0.bits)),
    ensures
        consistent(s.to_multiset(), desc),
{
    broadcast use vstd::seq_lib::group_to_multiset_ensures;
    let ms = s.to_multiset();
    assert forall|a: FragmentData, b: FragmentData, c: FragmentData|
        ms.contains(a) && ms.contains(b) && ms.contains(c) && #[trigger] may_precede(a, b, desc)
            && #[trigger] may_precede(b, c, desc) implies may_precede(a, c, desc) by {
        assert(s.contains(a) && s.contains(b) && s.contains(c));
        let i = s.index_of(a);
        let j = s.index_of(b);
        let k = s.index_of(c);
        assert(s[i] == a && s[j] == b && s[k] == c);
        paths_chain(a.path, b.path, c.path);
    }
}

/// A fragment that comes before another stands before it in a consistent order.
pub proof fn lesser_fragments_stand_first(
    s: Seq<FragmentData>,
    desc: bool,
    a: FragmentData,
    b: FragmentData,
)
    requires
        consistent(s.to_multiset(), desc),
        s.contains(a),
        s.contains(b),
        fragment_order(a, b, desc) == Order::Less,
    ensures
        exists|i: int, j: int|
            0 <= i < j < arranged(s, desc).len() && #[trigger] arranged(s, desc)[i] == a
                && #[trigger] arranged(s, desc)[j] == b,
{
    broadcast use vstd::seq_lib::group_to_multiset_ensures;
    arranged_is_ordering(s, desc);
    let t = arranged(s, desc);
    assert(t.to_multiset().contains(a) && t.to_multiset().contains(b));
    assert(t.contains(a) && t.contains(b));
    let i = t.index_of(a);
    let j = t.index_of(b);
    fragment_order_reverses(a, b, desc);
    fragment_order_reverses(a, a, desc);
    if j < i {
        assert(may_precede(t[j], t[i], desc));
    }
    assert(i != j) by {
        if i == j {
            assert(a == b);
        }
    }
    assert(t[i] == a && t[j] == b);
}

/// How a note reads in a merged document: a comment that names its source, and
/// its body.
pub open spec fn with_source(path: Seq<char>, body: Seq<char>) -> Seq<char> {
    "<!-- source: "@ + path + " -->\n"@ + body
}

/// Whether one text stands in a document, and another after it.
pub open spec fn stand_in_turn(doc: Seq<char>, a: Seq<char>, b: Seq<char>) -> bool {
    exists|x: Seq<char>, y: Seq<char>, z: Seq<char>| doc == #[trigger] (x + a + y + b + z)
}

/// A document is its fragments, each under its source, with an empty line
/// between each two and nothing else.
pub proof fn documents_are_made_of_fragments(
    a: Seq<FragmentData>,
    f: FragmentData,
    b: Seq<FragmentData>,
)
    ensures
        document(seq![f]) == with_source(f.path, f.body),
        a.len() > 0 && b.len() > 0 ==> document(a + b) == document(a) + "\n\n"@ + document(b),
        document(seq![]) == Seq::<char>::empty(),
{
    let shown = |f: FragmentData| fragment_text(f);
    let sep = "\n\n"@;
    assert(seq![f].map_values(shown) =~= seq![fragment_text(f)]);
    assert((a + b).map_values(shown) =~= a.map_values(shown) + b.map_values(shown));
    text::joining_in_lots(a.map_values(shown), b.map_values(shown), sep, fragment_text(f));
    empty_document();
}

/// Fragments that follow each other stand in the document in turn.
pub proof fn fragments_stand_in_turn(s: Seq<FragmentData>, i: int, j: int)
    requires
        0 <= i < j < s.len(),
    ensures
        stand_in_turn(
            document(s),
            with_source(s[i].path, s[i].body),
            with_source(s[j].path, s[j].body),
        ),
{
    let head = s.take(j);
    let tail = s.skip(j);
    let sep = "\n\n"@;
    let a = with_source(s[i].path, s[i].body);
    let b = with_source(s[j].path, s[j].body);
    assert(s =~= head + tail);
    documents_are_made_of_fragments(head, s[i], tail);
    assert(head[i] == s[i] && tail[0] == s[j]);
    fragment_is_within(head, i);
    fragment_is_within(tail, 0);
    let (x, u) = choose|x: Seq<char>, u: Seq<char>| document(head) == #[trigger] (x + a + u);
    let (v, z) = choose|v: Seq<char>, z: Seq<char>| document(tail) == #[trigger] (v + b + z);
    let y = u + sep + v;
    assert(x + a + u + sep + (v + b + z) =~= x + a + y + b + z);
}

/// Each fragment is in the document, under its source.
pub proof fn fragment_is_within(s: Seq<FragmentData>, i: int)
    requires
        0 <= i < s.len(),
    ensures
        text::is_within(with_source(s[i].path, s[i].body), document(s)),
{
    let parts = s.map_values(|f: FragmentData| fragment_text(f));
    text::joined_holds_each(parts, "\n\n"@, i);
    assert(parts[i] == with_source(s[i].path, s[i].body));
}

/// The guard lets fragments through exactly if each of them has the key and all
/// of them read the same there.
pub proof fn guard_asks_for_one_value(s: Seq<FragmentData>)
    ensures
        of_one_kind(s) <==> !(exists|i: int| 0 <= i < s.len() && (#[trigger] s[i]).kind is None)
            && !(exists|i: int, j: int|
            0 <= i < s.len() && 0 <= j < s.len() && (#[trigger] s[i]).kind is Some && (
            #[trigger] s[j]).kind is Some && value::canonical_text(s[i].kind->0)
                != value::canonical_text(s[j].kind->0)),
{
    if !(exists|i: int| 0 <= i < s.len() && (#[trigger] s[i]).kind is None) && !(exists|
        i: int,
        j: int,
    |
        0 <= i < s.len() && 0 <= j < s.len() && (#[trigger] s[i]).kind is Some && (
        #[trigger] s[j]).kind is Some && value::canonical_text(s[i].kind->0)
            != value::canonical_text(s[j].kind->0)) {
        assert forall|i: int| 0 <= i < s.len() implies (#[trigger] s[i]).kind is Some by {}
        assert forall|i: int, j: int|
            0 <= i < s.len() && 0 <= j < s.len() implies value::canonical_text(
            (#[trigger] s[i]).kind->0,
        ) == value::canonical_text((#[trigger] s[j]).kind->0) by {
            assert(s[i].kind is Some && s[j].kind is Some);
        }
    }
}

proof fn kept_paths(s: Seq<FragmentData>, pred: spec_fn(FragmentData) -> bool, i: int)
    requires
        0 <= i < s.len(),
        pred(s[i]),
    ensures
        paths_of(s.filter(pred)).contains(s[i].path),
    decreases s.len(),
{
    reveal(Seq::filter);
    let rest = s.drop_last();
    let f = s.filter(pred);
    if i < rest.len() {
        kept_paths(rest, pred, i);
        assert(rest[i] == s[i]);
        let g = paths_of(rest.filter(pred));
        let k = g.index_of(s[i].path);
        assert(paths_of(f)[k] == g[k]);
    } else {
        assert(f.last() == s[i]);
        assert(paths_of(f)[f.len() - 1] == s[i].path);
    }
}

/// What the guard says when it refuses names the key, and every fragment that
/// lacks it.
pub proof fn refusals_name_who_lacks_the_key(key: Seq<char>, s: Seq<FragmentData>, i: int)
    requires
        0 <= i < s.len(),
        s[i].kind is None,
    ensures
        text::is_within(key, guard_refusal(key, s)),
        text::is_within(s[i].path, guard_refusal(key, s)),
{
    let missing = paths_of(s.filter(lacks_kind()));
    kept_paths(s, lacks_kind(), i);
    let k = missing.index_of(s[i].path);
    let list = text::joined(missing, ", "@);
    text::joined_holds_each(missing, ", "@, k);
    let head = "__anw-kind="@ + key
        + ": merge requires every matched note to share one value for `"@ + key + "`\n"@;
    let by_value = groups(s);
    let values = if group_lines(by_value).len() > 1 {
        "distinct values found:\n"@ + text::joined(group_lines(by_value), ""@)
    } else {
        seq![]
    };
    let all = guard_refusal(key, s);
    let before = head + values + "notes missing the key: "@;
    assert(all =~= before + list + "\n"@);
    text::within_more(s[i].path, list, before, "\n"@);
    let after = ": merge requires every matched note to share one value for `"@ + key + "`\n"@
        + values + "notes missing the key: "@ + list + "\n"@;
    assert(all =~= "__anw-kind="@ + key + after);
    text::within_by("__anw-kind="@, key, after);
}

/// Where the fragments have several values, the refusal names each value, and
/// the path of each fragment that has it.
pub proof fn refusals_name_the_values(key: Seq<char>, s: Seq<FragmentData>, i: int, j: int)
    requires
        0 <= i < s.len(),
        0 <= j < s.len(),
        s[i].kind is Some,
        s[j].kind is Some,
        value::canonical_text(s[i].kind->0) != value::canonical_text(s[j].kind->0),
        groups(s).dom().finite(),
    ensures
        text::is_within(value::canonical_text(s[i].kind->0), guard_refusal(key, s)),
        text::is_within(s[i].path, guard_refusal(key, s)),
{
    let v = value::canonical_text(s[i].kind->0);
    let w = value::canonical_text(s[j].kind->0);
    let by_value = groups(s);
    assert(has_kind(v)(s[i]) && has_kind(w)(s[j]));
    assert(by_value.dom().contains(v) && by_value.dom().contains(w));
    sorted::finite_sets_are_listed(by_value.dom());
    let keys = sorted::ascending(by_value.dom());
    assert(keys.contains(v) && keys.contains(w));
    let a = keys.index_of(v);
    let b = keys.index_of(w);
    assert(a != b);
    let lines = group_lines(by_value);
    assert(lines.len() > 1);
    let paths = by_value[v];
    kept_paths(s, has_kind(v), i);
    let k = paths.index_of(s[i].path);
    let list = text::joined(paths, ", "@);
    text::joined_holds_each(paths, ", "@, k);
    let line = group_line(v, paths);
    assert(lines[a] == line);
    assert(line =~= ("  "@ + v + ": "@) + list + "\n"@);
    text::within_more(s[i].path, list, "  "@ + v + ": "@, "\n"@);
    assert(line =~= "  "@ + v + (": "@ + list + "\n"@));
    text::within_by("  "@, v, ": "@ + list + "\n"@);
    let joined = text::joined(lines, ""@);
    text::joined_holds_each(lines, ""@, a);
    let head = "__anw-kind="@ + key
        + ": merge requires every matched note to share one value for `"@ + key + "`\n"@;
    let missing = paths_of(s.filter(lacks_kind()));
    let lacking = if missing.len() > 0 {
        "notes missing the key: "@ + text::joined(missing, ", "@) + "\n"@
    } else {
        seq![]
    };
    let all = guard_refusal(key, s);
    assert(all =~= (head + "distinct values found:\n"@) + joined + lacking);
    within_twice(s[i].path, line, joined);
    within_twice(v, line, joined);
    text::within_more(s[i].path, joined, head + "distinct values found:\n"@, lacking);
    text::within_more(v, joined, head + "distinct values found:\n"@, lacking);
}

proof fn within_twice(t: Seq<char>, s: Seq<char>, u: Seq<char>)
    requires
        text::is_within(t, s),
        text::is_within(s, u),
    ensures
        text::is_within(t, u),
{
    let (x, y) = choose|x: Seq<char>, y: Seq<char>| u == #[trigger] (x + s + y);
    text::within_more(t, s, x, y);
}

}
