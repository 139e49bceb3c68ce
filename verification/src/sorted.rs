//! A map from texts to values that keeps its keys in ascending order.

use vstd::prelude::*;

use crate::lists;
use crate::text;
use crate::text::Order;

verus! {

/// Whether every text comes before those that follow it.
pub open spec fn strictly_ascending(s: Seq<Seq<char>>) -> bool {
    forall|i: int, j: int| 0 <= i < j < s.len() ==> text::precedes(#[trigger] s[i], #[trigger] s[j])
}

/// Whether `s` names each text of `d` once, in ascending order.
pub open spec fn lists(s: Seq<Seq<char>>, d: Set<Seq<char>>) -> bool {
    strictly_ascending(s) && forall|k: Seq<char>| s.contains(k) <==> #[trigger] d.contains(k)
}

/// The texts of `d` in ascending order.
pub open spec fn ascending(d: Set<Seq<char>>) -> Seq<Seq<char>> {
    choose|s: Seq<Seq<char>>| lists(s, d)
}

/// A set has no more than one ascending listing.
pub proof fn listing_is_unique(a: Seq<Seq<char>>, b: Seq<Seq<char>>, d: Set<Seq<char>>)
    requires
        lists(a, d),
        lists(b, d),
    ensures
        a == b,
    decreases a.len(),
{
    if a.len() == 0 {
        if b.len() > 0 {
            assert(b.contains(b[0]));
            assert(d.contains(b[0]));
        }
        assert(a =~= b);
    } else {
        assert(a.contains(a[0]));
        assert(d.contains(a[0]));
        assert(b.contains(a[0]));
        let i = b.index_of(a[0]);
        assert(b.contains(b[0]));
        assert(d.contains(b[0]));
        let j = a.index_of(b[0]);
        if i > 0 && j > 0 {
            text::precedes_transitive(b[0], b[i], b[0]);
            text::precedes_irreflexive(b[0]);
        }
        assert(a[0] == b[0]);
        let x = a.drop_first();
        let y = b.drop_first();
        let rest = d.remove(a[0]);
        assert forall|k: Seq<char>| x.contains(k) <==> #[trigger] rest.contains(k) by {
            tail_contains(a, k);
        }
        assert forall|k: Seq<char>| y.contains(k) <==> #[trigger] rest.contains(k) by {
            tail_contains(b, k);
        }
        listing_is_unique(x, y, rest);
        assert(a =~= seq![a[0]] + x);
        assert(b =~= seq![b[0]] + y);
    }
}

/// A finite set has an ascending listing.
pub proof fn finite_sets_are_listed(d: Set<Seq<char>>)
    requires
        d.finite(),
    ensures
        lists(ascending(d), d),
{
    let s = listing(d);
}

proof fn listing(d: Set<Seq<char>>) -> (s: Seq<Seq<char>>)
    requires
        d.finite(),
    ensures
        lists(s, d),
    decreases d.len(),
{
    if d.len() == 0 {
        assert(d =~= Set::empty());
        let s = Seq::<Seq<char>>::empty();
        assert(lists(s, d));
        s
    } else {
        let x = d.choose();
        let rest = listing(d.remove(x));
        assert(!rest.contains(x)) by {
            assert(!d.remove(x).contains(x));
        }
        let p = place_in(rest, x);
        let s = rest.insert(p, x);
        assert forall|i: int, j: int| 0 <= i < j < s.len() implies text::precedes(
            #[trigger] s[i],
            #[trigger] s[j],
        ) by {
            let a = if i < p { i } else { i - 1 };
            let b = if j < p { j } else { j - 1 };
            if i != p && j != p {
                assert(text::precedes(rest[a], rest[b]));
            } else if i == p {
                assert(text::precedes(x, rest[b]));
            } else {
                assert(text::precedes(rest[a], x));
            }
        }
        assert forall|k: Seq<char>| s.contains(k) <==> #[trigger] d.contains(k) by {
            if s.contains(k) {
                let i = s.index_of(k);
                if i != p {
                    let a = if i < p { i } else { i - 1 };
                    assert(rest[a] == k);
                    assert(rest.contains(k));
                    assert(d.remove(x).contains(k));
                }
            }
            if d.contains(k) {
                if k == x {
                    assert(s[p] == k);
                } else {
                    assert(d.remove(x).contains(k));
                    assert(rest.contains(k));
                    let a = rest.index_of(k);
                    if a < p {
                        assert(s[a] == k);
                    } else {
                        assert(s[a + 1] == k);
                    }
                }
            }
        }
        s
    }
}

proof fn place_in(s: Seq<Seq<char>>, x: Seq<char>) -> (p: int)
    requires
        strictly_ascending(s),
        !s.contains(x),
    ensures
        0 <= p <= s.len(),
        forall|j: int| 0 <= j < p ==> text::precedes(#[trigger] s[j], x),
        forall|j: int| p <= j < s.len() ==> text::precedes(x, #[trigger] s[j]),
    decreases s.len(),
{
    if s.len() == 0 {
        0
    } else {
        let rest = s.drop_last();
        let last = s[s.len() - 1];
        assert(s.contains(last));
        text::precedes_total(last, x);
        if text::precedes(last, x) {
            assert forall|j: int| 0 <= j < s.len() implies text::precedes(#[trigger] s[j], x) by {
                if j < s.len() - 1 {
                    assert(text::precedes(s[j], last));
                    text::precedes_transitive(s[j], last, x);
                }
            }
            s.len() as int
        } else {
            assert(!rest.contains(x)) by {
                if rest.contains(x) {
                    assert(s[rest.index_of(x)] == x);
                }
            }
            assert forall|i: int, j: int| 0 <= i < j < rest.len() implies text::precedes(
                #[trigger] rest[i],
                #[trigger] rest[j],
            ) by {
                assert(text::precedes(s[i], s[j]));
            }
            let p = place_in(rest, x);
            assert forall|j: int| 0 <= j < p implies text::precedes(#[trigger] s[j], x) by {
                assert(text::precedes(rest[j], x));
            }
            assert forall|j: int| p <= j < s.len() implies text::precedes(x, #[trigger] s[j]) by {
                if j < rest.len() {
                    assert(text::precedes(x, rest[j]));
                }
            }
            p
        }
    }
}

proof fn tail_contains(a: Seq<Seq<char>>, k: Seq<char>)
    requires
        strictly_ascending(a),
        a.len() > 0,
    ensures
        a.drop_first().contains(k) <==> a.contains(k) && k != a[0],
{
    let x = a.drop_first();
    if x.contains(k) {
        let i = x.index_of(k);
        assert(a[i + 1] == k);
        assert(text::precedes(a[0], a[i + 1]));
        text::precedes_irreflexive(k);
    }
    if a.contains(k) && k != a[0] {
        let i = a.index_of(k);
        assert(x[i - 1] == k);
    }
}

/// A filtered list contains what the list does, if the filter lets it through.
pub proof fn filter_contains(s: Seq<Seq<char>>, pred: spec_fn(Seq<char>) -> bool, x: Seq<char>)
    ensures
        s.filter(pred).contains(x) <==> s.contains(x) && pred(x),
    decreases s.len(),
{
    reveal(Seq::filter);
    if s.len() > 0 {
        let rest = s.drop_last();
        filter_contains(rest, pred, x);
        assert(s =~= rest.push(s.last()));
        lists::push_contains(rest, s.last(), x);
        lists::push_contains(rest.filter(pred), s.last(), x);
    }
}

/// Filtering keeps the ascending order.
pub proof fn filter_ascends(s: Seq<Seq<char>>, pred: spec_fn(Seq<char>) -> bool)
    requires
        strictly_ascending(s),
    ensures
        strictly_ascending(s.filter(pred)),
    decreases s.len(),
{
    reveal(Seq::filter);
    if s.len() > 0 {
        let rest = s.drop_last();
        assert(strictly_ascending(rest)) by {
            assert forall|i: int, j: int| 0 <= i < j < rest.len() implies text::precedes(
                #[trigger] rest[i],
                #[trigger] rest[j],
            ) by {
                assert(text::precedes(s[i], s[j]));
            }
        }
        filter_ascends(rest, pred);
        let kept = rest.filter(pred);
        if pred(s.last()) {
            let all = kept.push(s.last());
            assert forall|i: int, j: int| 0 <= i < j < all.len() implies text::precedes(
                #[trigger] all[i],
                #[trigger] all[j],
            ) by {
                if j < kept.len() {
                    assert(text::precedes(kept[i], kept[j]));
                } else {
                    assert(kept.contains(kept[i]));
                    filter_contains(rest, pred, kept[i]);
                    let k = rest.index_of(kept[i]);
                    assert(text::precedes(s[k], s[s.len() - 1]));
                }
            }
        }
    }
}

/// A map from texts to values, its keys in ascending order.
#[derive(Debug, PartialEq)]
pub struct SortedMap<V> {
    entries: Vec<(String, V)>,
}

impl<V> SortedMap<V> {
    spec fn keys(self) -> Seq<Seq<char>> {
        self.entries@.map_values(|e: (String, V)| e.0@)
    }

    #[verifier::type_invariant]
    spec fn ordered(self) -> bool {
        strictly_ascending(self.keys())
    }

    /// What the map holds.
    pub closed spec fn contents(self) -> Map<Seq<char>, V> {
        Map::new(
            |k: Seq<char>| self.keys().contains(k),
            |k: Seq<char>| self.entries@[self.keys().index_of(k)].1,
        )
    }
}

impl<V> View for SortedMap<V> {
    type V = Map<Seq<char>, V>;

    open spec fn view(&self) -> Map<Seq<char>, V> {
        self.contents()
    }
}

/// A value of a map is a smaller thing than the map.
pub broadcast proof fn value_is_smaller<V>(m: SortedMap<V>, k: Seq<char>)
    requires
        m@.contains_key(k),
    ensures
        decreases_to!(m => #[trigger] m@[k]),
{
    let i = m.keys().index_of(k);
    assert(m.keys()[i] == k);
    assert(decreases_to!(m => m.entries));
    assert(decreases_to!(m.entries => m.entries@));
    assert(decreases_to!(m.entries@ => m.entries@[i]));
    assert(decreases_to!(m.entries@[i] => m.entries@[i].1));
}

/// A map holds finitely many keys.
pub proof fn contents_are_finite<V>(m: SortedMap<V>)
    ensures
        m@.dom().finite(),
{
    assert(m@.dom() =~= m.keys().to_set());
    vstd::seq_lib::seq_to_set_is_finite(m.keys());
}

impl<V> SortedMap<V> {
    /// The first place whose key does not come before `key`.
    fn place(entries: &Vec<(String, V)>, key: &str) -> (r: usize)
        requires
            strictly_ascending(entries@.map_values(|e: (String, V)| e.0@)),
        ensures
            r <= entries@.len(),
            forall|j: int| 0 <= j < r ==> text::precedes(#[trigger] entries@[j].0@, key@),
            forall|j: int|
                r <= j < entries@.len() ==> !text::precedes(#[trigger] entries@[j].0@, key@),
    {
        let ghost keys = entries@.map_values(|e: (String, V)| e.0@);
        let mut lo: usize = 0;
        let mut hi: usize = entries.len();
        while lo < hi
            invariant
                lo <= hi <= entries@.len(),
                keys == entries@.map_values(|e: (String, V)| e.0@),
                strictly_ascending(keys),
                forall|j: int| 0 <= j < lo ==> text::precedes(#[trigger] entries@[j].0@, key@),
                forall|j: int|
                    hi <= j < entries@.len() ==> !text::precedes(#[trigger] entries@[j].0@, key@),
            decreases hi - lo,
        {
            let mid: usize = lo + (hi - lo) / 2;
            let c = text::compare(entries[mid].0.as_str(), key);
            match c {
                Order::Less => {
                    proof {
                        assert forall|j: int| 0 <= j < mid + 1 implies text::precedes(
                            #[trigger] entries@[j].0@,
                            key@,
                        ) by {
                            if j < mid {
                                assert(text::precedes(keys[j], keys[mid as int]));
                                text::precedes_transitive(keys[j], keys[mid as int], key@);
                            }
                        }
                    }
                    lo = mid + 1;
                },
                _ => {
                    proof {
                        text::precedes_irreflexive(key@);
                        assert forall|j: int| mid <= j < entries@.len() implies !text::precedes(
                            #[trigger] entries@[j].0@,
                            key@,
                        ) by {
                            if j > mid && text::precedes(entries@[j].0@, key@) {
                                assert(text::precedes(keys[mid as int], keys[j]));
                                text::precedes_transitive(keys[mid as int], keys[j], key@);
                            }
                        }
                    }
                    hi = mid;
                },
            }
        }
        lo
    }

    /// An empty map.
    pub fn new() -> (r: Self)
        ensures
            r@ == Map::<Seq<char>, V>::empty(),
    {
        let r = SortedMap { entries: Vec::new() };
        assert(r@ =~= Map::<Seq<char>, V>::empty());
        r
    }

    /// How many keys there are. The keys are those of the contents, in
    /// ascending order.
    pub fn len(&self) -> (r: usize)
        ensures
            r == ascending(self@.dom()).len(),
            lists(ascending(self@.dom()), self@.dom()),
    {
        proof {
            use_type_invariant(self);
            self.keys_are_listed();
        }
        self.entries.len()
    }

    proof fn keys_are_listed(self)
        requires
            self.ordered(),
        ensures
            self.keys() == ascending(self@.dom()),
            lists(self.keys(), self@.dom()),
    {
        assert(lists(self.keys(), self@.dom()));
        listing_is_unique(self.keys(), ascending(self@.dom()), self@.dom());
    }

    /// Whether the map holds nothing.
    pub fn is_empty(&self) -> (r: bool)
        ensures
            r == (self@ == Map::<Seq<char>, V>::empty()),
    {
        proof {
            if self.entries@.len() == 0 {
                assert(self@ =~= Map::<Seq<char>, V>::empty());
            } else {
                assert(self.keys().contains(self.keys()[0]));
                assert(self@.contains_key(self.keys()[0]));
            }
        }
        self.entries.len() == 0
    }

    /// The key at a place of the ascending order.
    pub fn key_at(&self, i: usize) -> (r: &String)
        requires
            i < ascending(self@.dom()).len(),
        ensures
            r@ == ascending(self@.dom())[i as int],
            self@.contains_key(r@),
    {
        proof {
            use_type_invariant(self);
            self.keys_are_listed();
            assert(self.keys().contains(self.keys()[i as int]));
        }
        &self.entries[i].0
    }

    /// The value at a place of the ascending order.
    pub fn value_at(&self, i: usize) -> (r: &V)
        requires
            i < ascending(self@.dom()).len(),
        ensures
            *r == self@[ascending(self@.dom())[i as int]],
    {
        proof {
            use_type_invariant(self);
            self.keys_are_listed();
            self.place_of(i as int);
        }
        &self.entries[i].1
    }

    proof fn place_of(self, i: int)
        requires
            self.ordered(),
            0 <= i < self.entries@.len(),
        ensures
            self.keys().index_of(self.keys()[i]) == i,
            self@.contains_key(self.keys()[i]),
    {
        let keys = self.keys();
        assert(keys.contains(keys[i]));
        let k = keys.index_of(keys[i]);
        if k < i {
            assert(text::precedes(keys[k], keys[i]));
            text::precedes_irreflexive(keys[i]);
        } else if i < k {
            assert(text::precedes(keys[i], keys[k]));
            text::precedes_irreflexive(keys[i]);
        }
    }

    /// The value of a key.
    pub fn get(&self, key: &str) -> (r: Option<&V>)
        ensures
            r == (if self@.contains_key(key@) {
                Some(&self@[key@])
            } else {
                None
            }),
    {
        proof {
            use_type_invariant(self);
        }
        let p: usize = Self::place(&self.entries, key);
        if p < self.entries.len() && text::same(self.entries[p].0.as_str(), key) {
            proof {
                assert(self.keys()[p as int] == key@);
                self.place_of(p as int);
            }
            Some(&self.entries[p].1)
        } else {
            proof {
                self.absent(key@, p as int);
            }
            None
        }
    }

    proof fn absent(self, key: Seq<char>, p: int)
        requires
            self.ordered(),
            0 <= p <= self.entries@.len(),
            forall|j: int| 0 <= j < p ==> text::precedes(#[trigger] self.entries@[j].0@, key),
            forall|j: int|
                p <= j < self.entries@.len() ==> !text::precedes(#[trigger] self.entries@[j].0@, key),
            p < self.entries@.len() ==> self.entries@[p].0@ != key,
        ensures
            !self@.contains_key(key),
            forall|j: int|
                p <= j < self.entries@.len() ==> text::precedes(key, #[trigger] self.entries@[j].0@),
    {
        let keys = self.keys();
        text::precedes_irreflexive(key);
        assert forall|j: int| p <= j < self.entries@.len() implies text::precedes(
            key,
            #[trigger] self.entries@[j].0@,
        ) by {
            text::precedes_total(keys[p], key);
            if j > p {
                assert(text::precedes(keys[p], keys[j]));
                text::precedes_transitive(key, keys[p], keys[j]);
            }
        }
        if keys.contains(key) {
            let j = keys.index_of(key);
            assert(self.entries@[j].0@ == key);
        }
    }

    /// Sets the value of a key, which the map gains if it lacks it.
    pub fn insert(&mut self, key: String, value: V)
        ensures
            final(self)@ == old(self)@.insert(key@, value),
    {
        proof {
            use_type_invariant(&*self);
        }
        let ghost before = *self;
        let mut entries: Vec<(String, V)> = Vec::new();
        std::mem::swap(&mut entries, &mut self.entries);
        let p: usize = Self::place(&entries, key.as_str());
        let ghost k = key@;
        if p < entries.len() && text::same(entries[p].0.as_str(), key.as_str()) {
            entries.set(p, (key, value));
            proof {
                let after = SortedMap { entries };
                assert(after.keys() =~= before.keys());
                before.place_of(p as int);
                assert(before.keys()[p as int] == k);
                assert(after@ =~= before@.insert(k, value)) by {
                    assert forall|x: Seq<char>| after@.contains_key(x) implies after@[x]
                        == before@.insert(k, value)[x] by {
                        let i = after.keys().index_of(x);
                        assert(after.keys()[i] == x);
                        if x == k {
                            assert(i == p);
                        } else {
                            assert(i != p);
                        }
                    }
                }
            }
            self.entries = entries;
        } else {
            proof {
                before.absent(k, p as int);
            }
            entries.insert(p, (key, value));
            proof {
                let after = SortedMap { entries };
                let old_keys = before.keys();
                let new_keys = after.keys();
                assert(new_keys =~= old_keys.insert(p as int, k));
                assert forall|i: int, j: int| 0 <= i < j < new_keys.len() implies text::precedes(
                    #[trigger] new_keys[i],
                    #[trigger] new_keys[j],
                ) by {
                    let a = if i < p { i } else { i - 1 };
                    let b = if j < p { j } else { j - 1 };
                    if i != p && j != p {
                        assert(text::precedes(old_keys[a], old_keys[b]));
                    } else if i == p {
                        assert(text::precedes(k, before.entries@[b].0@));
                    } else {
                        assert(text::precedes(before.entries@[a].0@, k));
                    }
                }
                assert(after.ordered());
                assert(after@ =~= before@.insert(k, value)) by {
                    assert forall|x: Seq<char>| #[trigger] after@.contains_key(x) <==> before@.insert(
                        k,
                        value,
                    ).contains_key(x) by {
                        if new_keys.contains(x) {
                            let i = new_keys.index_of(x);
                            if i < p {
                                assert(old_keys[i] == x);
                            } else if i > p {
                                assert(old_keys[i - 1] == x);
                            }
                        }
                        if old_keys.contains(x) {
                            let i = old_keys.index_of(x);
                            if i < p {
                                assert(new_keys[i] == x);
                            } else {
                                assert(new_keys[i + 1] == x);
                            }
                        }
                        assert(new_keys[p as int] == k);
                    }
                    assert forall|x: Seq<char>| after@.contains_key(x) implies after@[x]
                        == before@.insert(k, value)[x] by {
                        let i = new_keys.index_of(x);
                        after.place_of(i);
                        if i == p {
                        } else {
                            let a = if i < p { i } else { i - 1 };
                            assert(old_keys[a] == x);
                            before.place_of(a);
                            assert(x != k) by {
                                after.place_of(p as int);
                            }
                        }
                    }
                }
            }
            self.entries = entries;
        }
    }

    /// Drops a key, if the map has it.
    pub fn remove(&mut self, key: &str)
        ensures
            final(self)@ == old(self)@.remove(key@),
    {
        proof {
            use_type_invariant(&*self);
        }
        let ghost before = *self;
        let mut entries: Vec<(String, V)> = Vec::new();
        std::mem::swap(&mut entries, &mut self.entries);
        let p: usize = Self::place(&entries, key);
        if p < entries.len() && text::same(entries[p].0.as_str(), key) {
            entries.remove(p);
            proof {
                let after = SortedMap { entries };
                let old_keys = before.keys();
                let new_keys = after.keys();
                before.place_of(p as int);
                assert(old_keys[p as int] == key@);
                assert(new_keys =~= old_keys.remove(p as int));
                assert forall|i: int, j: int| 0 <= i < j < new_keys.len() implies text::precedes(
                    #[trigger] new_keys[i],
                    #[trigger] new_keys[j],
                ) by {
                    let a = if i < p { i } else { i + 1 };
                    let b = if j < p { j } else { j + 1 };
                    assert(text::precedes(old_keys[a], old_keys[b]));
                }
                assert(after.ordered());
                assert(after@ =~= before@.remove(key@)) by {
                    assert forall|x: Seq<char>| #[trigger] after@.contains_key(x) <==> before@.remove(
                        key@,
                    ).contains_key(x) by {
                        if new_keys.contains(x) {
                            let i = new_keys.index_of(x);
                            let a = if i < p { i } else { i + 1 };
                            assert(old_keys[a] == x);
                            before.place_of(a);
                        }
                        if old_keys.contains(x) && x != key@ {
                            let i = old_keys.index_of(x);
                            if i < p {
                                assert(new_keys[i] == x);
                            } else {
                                assert(new_keys[i - 1] == x);
                            }
                        }
                    }
                    assert forall|x: Seq<char>| after@.contains_key(x) implies after@[x]
                        == before@.remove(key@)[x] by {
                        let i = new_keys.index_of(x);
                        let a = if i < p { i } else { i + 1 };
                        assert(old_keys[a] == x);
                        before.place_of(a);
                    }
                }
            }
            self.entries = entries;
        } else {
            proof {
                before.absent(key@, p as int);
                assert(before@ =~= before@.remove(key@));
            }
            self.entries = entries;
        }
    }
}

}
