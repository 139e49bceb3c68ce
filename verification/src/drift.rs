//! Type drift: one frontmatter key that has values of incompatible kinds in
//! different notes.

use vstd::prelude::*;
use vstd::utf8::encode_utf8;

use crate::paths;
use crate::sorted;
use crate::sorted::SortedMap;
use crate::text;
use crate::value;
use crate::value::{Data, Value};
use crate::vault;
use crate::vault::{Note, NoteData, ScanWarning, ScanWarningKind, WarningData, WarningKindData};

verus! {

/// The kinds that frontmatter values are told apart by.
#[derive(Debug, Clone, Copy, PartialEq, Eq, Structural)]
pub enum ValueKind {
    Bool,
    Number,
    Text,
    Date,
    List,
    Table,
}

/// The kind of a value. An integer and a decimal number are of one kind, and so
/// are a date and a date-time; lists are of one kind whatever they hold, and so
/// are tables. A single value and a list are of different kinds: that equality
/// in a query finds a value in a list as it finds it alone makes them no more
/// alike. Null is of no kind.
pub open spec fn kind_of(v: Data) -> Option<ValueKind> {
    match v {
        Data::Null => None,
        Data::Bool(_) => Some(ValueKind::Bool),
        Data::Int(_) => Some(ValueKind::Number),
        Data::Float(_) => Some(ValueKind::Number),
        Data::Text(_) => Some(ValueKind::Text),
        Data::Date(_, _, _) => Some(ValueKind::Date),
        Data::DateTime(_) => Some(ValueKind::Date),
        Data::List(_) => Some(ValueKind::List),
        Data::Table(_) => Some(ValueKind::Table),
    }
}

/// Whether two values are of incompatible kinds. Null is compatible with every
/// value.
pub open spec fn incompatible(a: Data, b: Data) -> bool {
    kind_of(a) is Some && kind_of(b) is Some && kind_of(a) != kind_of(b)
}

/// Whether a key drifts: two notes hold it, at the top of their frontmatter,
/// with values of incompatible kinds.
pub open spec fn drifts(notes: Seq<NoteData>, key: Seq<char>) -> bool {
    exists|i: int, j: int|
        0 <= i < notes.len() && 0 <= j < notes.len() && (
        #[trigger] notes[i]).frontmatter.contains_key(key) && (
        #[trigger] notes[j]).frontmatter.contains_key(key) && incompatible(
            notes[i].frontmatter[key],
            notes[j].frontmatter[key],
        )
}

/// The keys that drift.
pub open spec fn drifting(notes: Seq<NoteData>) -> Set<Seq<char>> {
    Set::new(|key: Seq<char>| drifts(notes, key))
}

/// The kind that a key has in a note; none if the note does not hold it.
pub open spec fn kind_in(note: NoteData, key: Seq<char>) -> Option<ValueKind> {
    if note.frontmatter.contains_key(key) {
        kind_of(note.frontmatter[key])
    } else {
        None
    }
}

/// The kind that a key has in the first note where it has one.
pub open spec fn first_kind(notes: Seq<NoteData>, key: Seq<char>) -> Option<ValueKind>
    decreases notes.len(),
{
    if notes.len() == 0 {
        None
    } else {
        match first_kind(notes.drop_last(), key) {
            Some(kind) => Some(kind),
            None => kind_in(notes.last(), key),
        }
    }
}

/// The place of the first note where a key has another kind than in the notes
/// before it.
pub open spec fn first_clash(notes: Seq<NoteData>, key: Seq<char>) -> Option<int>
    decreases notes.len(),
{
    if notes.len() == 0 {
        None
    } else {
        let rest = notes.drop_last();
        match (first_clash(rest, key), first_kind(rest, key), kind_in(notes.last(), key)) {
            (Some(i), _, _) => Some(i),
            (None, Some(a), Some(b)) => if a != b {
                Some(notes.len() - 1)
            } else {
                None
            },
            _ => None,
        }
    }
}

/// The warnings about drift: one for each key that drifts, in ascending order
/// of the keys, with the path of the first note where the key clashes with the
/// notes before it.
pub open spec fn drift_warnings(notes: Seq<NoteData>) -> Seq<WarningData> {
    sorted::ascending(drifting(notes)).map_values(
        |key: Seq<char>|
            WarningData {
                path: encode_utf8(notes[first_clash(notes, key)->0].path),
                kind: WarningKindData::TypeDrift(key),
            },
    )
}

proof fn first_kinds(notes: Seq<NoteData>, key: Seq<char>)
    ensures
        first_kind(notes, key) matches Some(kind) ==> exists|i: int|
            0 <= i < notes.len() && kind_in(#[trigger] notes[i], key) == Some(kind),
        first_clash(notes, key) is None ==> forall|i: int|
            0 <= i < notes.len() ==> kind_in(#[trigger] notes[i], key) is None || kind_in(
                notes[i],
                key,
            ) == first_kind(notes, key),
        first_clash(notes, key) matches Some(c) ==> 0 <= c < notes.len() && exists|i: int|
            0 <= i < c && kind_in(#[trigger] notes[i], key) is Some && kind_in(notes[c], key)
                is Some && kind_in(notes[i], key) != kind_in(notes[c], key),
    decreases notes.len(),
{
    if notes.len() > 0 {
        let rest = notes.drop_last();
        let n = notes.len() - 1;
        first_kinds(rest, key);
        assert forall|i: int| 0 <= i < n implies rest[i] == #[trigger] notes[i] by {}
        match first_kind(rest, key) {
            Some(kind) => {
                let i = choose|i: int|
                    0 <= i < rest.len() && kind_in(#[trigger] rest[i], key) == Some(kind);
                assert(kind_in(notes[i], key) == Some(kind));
            },
            None => {
                assert(kind_in(notes[n], key) == kind_in(notes.last(), key));
            },
        }
        match first_clash(rest, key) {
            Some(c) => {
                let i = choose|i: int|
                    0 <= i < c && kind_in(#[trigger] rest[i], key) is Some && kind_in(
                        rest[c],
                        key,
                    ) is Some && kind_in(rest[i], key) != kind_in(rest[c], key);
                assert(notes[i] == rest[i] && notes[c] == rest[c]);
            },
            None => {
                assert forall|i: int| 0 <= i < n implies kind_in(#[trigger] notes[i], key) is None
                    || kind_in(notes[i], key) == first_kind(rest, key) by {
                    assert(notes[i] == rest[i]);
                }
            },
        }
    }
}

/// A key drifts exactly if there is a note where it clashes with the notes
/// before it.
pub proof fn drift_is_a_clash(notes: Seq<NoteData>, key: Seq<char>)
    ensures
        drifts(notes, key) <==> first_clash(notes, key) is Some,
        first_clash(notes, key) matches Some(c) ==> 0 <= c < notes.len()
            && notes[c].frontmatter.contains_key(key),
{
    first_kinds(notes, key);
    match first_clash(notes, key) {
        Some(c) => {
            let i = choose|i: int|
                0 <= i < c && kind_in(#[trigger] notes[i], key) is Some && kind_in(notes[c], key)
                    is Some && kind_in(notes[i], key) != kind_in(notes[c], key);
            assert(incompatible(notes[i].frontmatter[key], notes[c].frontmatter[key]));
        },
        None => {
            if drifts(notes, key) {
                let (i, j) = choose|i: int, j: int|
                    0 <= i < notes.len() && 0 <= j < notes.len() && (
                    #[trigger] notes[i]).frontmatter.contains_key(key) && (
                    #[trigger] notes[j]).frontmatter.contains_key(key) && incompatible(
                        notes[i].frontmatter[key],
                        notes[j].frontmatter[key],
                    );
                assert(kind_in(notes[i], key) == first_kind(notes, key));
                assert(kind_in(notes[j], key) == first_kind(notes, key));
            }
        },
    }
}

/// A finite set that holds the keys of all these notes.
proof fn held_keys(notes: Seq<NoteData>) -> (held: Set<Seq<char>>)
    requires
        forall|i: int| 0 <= i < notes.len() ==> (#[trigger] notes[i]).frontmatter.dom().finite(),
    ensures
        held.finite(),
        forall|i: int, key: Seq<char>|
            0 <= i < notes.len() && #[trigger] notes[i].frontmatter.contains_key(key)
                ==> held.contains(key),
    decreases notes.len(),
{
    if notes.len() == 0 {
        Set::empty()
    } else {
        let rest = notes.drop_last();
        assert forall|i: int| 0 <= i < rest.len() implies rest[i] == #[trigger] notes[i] by {}
        let held = held_keys(rest);
        let all = held.union(notes.last().frontmatter.dom());
        assert forall|i: int, key: Seq<char>|
            0 <= i < notes.len()
                && #[trigger] notes[i].frontmatter.contains_key(key) implies all.contains(key) by {
            if i < rest.len() {
                assert(rest[i].frontmatter.contains_key(key));
            }
        }
        all
    }
}

/// The keys that drift have an ascending order: there are finitely many.
pub proof fn drifting_keys_are_listed(notes: Seq<NoteData>)
    requires
        forall|i: int| 0 <= i < notes.len() ==> (#[trigger] notes[i]).frontmatter.dom().finite(),
    ensures
        sorted::lists(sorted::ascending(drifting(notes)), drifting(notes)),
{
    let held = held_keys(notes);
    assert forall|key: Seq<char>| #[trigger] drifting(notes).contains(key) implies held.contains(
        key,
    ) by {
        drift_is_a_clash(notes, key);
    }
    vstd::set_lib::lemma_set_subset_finite(held, drifting(notes));
    sorted::finite_sets_are_listed(drifting(notes));
}

/// The kind of a value.
pub fn value_kind(v: &Value) -> (r: Option<ValueKind>)
    ensures
        r == kind_of(v@),
{
    match v {
        Value::Null => None,
        Value::Bool(_) => Some(ValueKind::Bool),
        Value::Int(_) => Some(ValueKind::Number),
        Value::Float(_) => Some(ValueKind::Number),
        Value::String(_) => Some(ValueKind::Text),
        Value::Date(_) => Some(ValueKind::Date),
        Value::DateTime(_) => Some(ValueKind::Date),
        Value::Sequence(_) => Some(ValueKind::List),
        Value::Mapping(_) => Some(ValueKind::Table),
    }
}

/// Whether what was noted of a key is right for these notes.
spec fn noted(
    kinds: Map<Seq<char>, ValueKind>,
    clashes: Map<Seq<char>, usize>,
    notes: Seq<NoteData>,
    key: Seq<char>,
) -> bool {
    &&& kinds.get(key) == first_kind(notes, key)
    &&& clashes.contains_key(key) <==> first_clash(notes, key) is Some
    &&& clashes.contains_key(key) ==> clashes[key] == first_clash(notes, key)->0
}

/// Whether what was noted of a key is right when the last of these notes has
/// been taken as far as the keys in `done`.
spec fn noted_in_part(
    kinds: Map<Seq<char>, ValueKind>,
    clashes: Map<Seq<char>, usize>,
    notes: Seq<NoteData>,
    done: Seq<Seq<char>>,
    key: Seq<char>,
) -> bool {
    noted(
        kinds,
        clashes,
        if done.contains(key) {
            notes
        } else {
            notes.drop_last()
        },
        key,
    )
}

/// Notes the kinds that one more note has, and where they clash with those
/// before.
fn note_kinds(
    notes: &Vec<Note>,
    i: usize,
    kinds: &mut SortedMap<ValueKind>,
    clashes: &mut SortedMap<usize>,
)
    requires
        i < notes@.len(),
        forall|key: Seq<char>| #[trigger]
            noted(old(kinds)@, old(clashes)@, vault::notes_data(notes@).take(i as int), key),
    ensures
        forall|key: Seq<char>| #[trigger]
            noted(final(kinds)@, final(clashes)@, vault::notes_data(notes@).take(i + 1), key),
{
    let fm = &notes[i].frontmatter;
    let ghost all = vault::notes_data(notes@);
    let ghost prev = all.take(i as int);
    let ghost next = all.take(i + 1);
    let n: usize = fm.len();
    let ghost keys = sorted::ascending(fm@.dom());
    let ghost table = value::table_data(fm@);
    proof {
        assert(next.drop_last() =~= prev);
        assert(next.last() == notes@[i as int]@);
        assert(next.last().frontmatter == table);
        assert forall|key: Seq<char>| #[trigger]
            noted_in_part(kinds@, clashes@, next, keys.take(0), key) by {
            assert(noted(kinds@, clashes@, prev, key));
        }
    }
    let mut j: usize = 0;
    while j < n
        invariant
            j <= n == keys.len(),
            i < notes@.len(),
            keys == sorted::ascending(fm@.dom()),
            sorted::lists(keys, fm@.dom()),
            table == value::table_data(fm@),
            prev.len() == i,
            next.len() == i + 1,
            next.drop_last() == prev,
            next.last().frontmatter == table,
            forall|key: Seq<char>| #[trigger]
                noted_in_part(kinds@, clashes@, next, keys.take(j as int), key),
        decreases n - j,
    {
        let key = fm.key_at(j);
        let ghost k = key@;
        let ghost before = kinds@;
        let ghost clashed = clashes@;
        proof {
            if keys.take(j as int).contains(k) {
                let l = keys.take(j as int).index_of(k);
                assert(text::precedes(keys[l], keys[j as int]));
                text::precedes_irreflexive(k);
            }
            assert(noted_in_part(before, clashed, next, keys.take(j as int), k));
            assert(noted(before, clashed, prev, k));
            assert(table.contains_key(k) && table[k] == fm@[k]@);
        }
        match value_kind(fm.value_at(j)) {
            Some(kind) => {
                let seen: Option<ValueKind> = match kinds.get(key.as_str()) {
                    Some(first) => Some(*first),
                    None => None,
                };
                match seen {
                    Some(first) => {
                        if first != kind && clashes.get(key.as_str()).is_none() {
                            clashes.insert(key.clone(), i);
                        }
                    },
                    None => {
                        kinds.insert(key.clone(), kind);
                    },
                }
            },
            None => {},
        }
        proof {
            assert(noted(kinds@, clashes@, next, k));
            assert forall|key: Seq<char>| #[trigger]
                noted_in_part(kinds@, clashes@, next, keys.take(j + 1), key) by {
                assert(keys.take(j + 1) =~= keys.take(j as int).push(k));
                crate::lists::push_contains(keys.take(j as int), k, key);
                if key != k {
                    assert(noted_in_part(before, clashed, next, keys.take(j as int), key));
                }
            }
        }
        j += 1;
    }
    proof {
        assert(keys.take(n as int) =~= keys);
        assert forall|key: Seq<char>| #[trigger] noted(kinds@, clashes@, next, key) by {
            assert(noted_in_part(kinds@, clashes@, next, keys.take(n as int), key));
            if !keys.contains(key) {
                assert(!fm@.dom().contains(key));
                assert(kind_in(next.last(), key) is None);
            }
        }
    }
}

/// Finds the keys that drift.
pub fn detect_drift(notes: &Vec<Note>) -> (r: Vec<ScanWarning>)
    ensures
        vault::warnings_data(r@) == drift_warnings(vault::notes_data(notes@)),
        sorted::lists(
            sorted::ascending(drifting(vault::notes_data(notes@))),
            drifting(vault::notes_data(notes@)),
        ),
{
    let ghost all = vault::notes_data(notes@);
    let mut kinds: SortedMap<ValueKind> = SortedMap::new();
    let mut clashes: SortedMap<usize> = SortedMap::new();
    let mut i: usize = 0;
    while i < notes.len()
        invariant
            i <= notes@.len(),
            all == vault::notes_data(notes@),
            forall|key: Seq<char>| #[trigger] noted(kinds@, clashes@, all.take(i as int), key),
        decreases notes@.len() - i,
    {
        note_kinds(notes, i, &mut kinds, &mut clashes);
        i += 1;
    }
    proof {
        assert(all.take(i as int) =~= all);
        assert forall|key: Seq<char>|
            clashes@.contains_key(key) <==> #[trigger] drifts(all, key) by {
            assert(noted(kinds@, clashes@, all, key));
            drift_is_a_clash(all, key);
        }
        assert(clashes@.dom() =~= drifting(all));
    }
    let ghost keys = sorted::ascending(drifting(all));
    let n: usize = clashes.len();
    let mut out: Vec<ScanWarning> = Vec::new();
    let mut j: usize = 0;
    while j < n
        invariant
            j <= n == keys.len(),
            all == vault::notes_data(notes@),
            keys == sorted::ascending(clashes@.dom()),
            forall|key: Seq<char>| #[trigger] noted(kinds@, clashes@, all, key),
            out@.len() == j,
            forall|l: int|
                0 <= l < j ==> (#[trigger] out@[l])@ == (WarningData {
                    path: encode_utf8(all[first_clash(all, keys[l])->0].path),
                    kind: WarningKindData::TypeDrift(keys[l]),
                }),
        decreases n - j,
    {
        let key = clashes.key_at(j);
        let at: usize = *clashes.value_at(j);
        proof {
            assert(noted(kinds@, clashes@, all, key@));
            drift_is_a_clash(all, key@);
        }
        let warning = ScanWarning {
            path: paths::copy_bytes(notes[at].path.as_str().as_bytes()),
            kind: ScanWarningKind::TypeDrift(key.clone()),
        };
        assert(warning@ =~= WarningData {
            path: encode_utf8(all[first_clash(all, keys[j as int])->0].path),
            kind: WarningKindData::TypeDrift(keys[j as int]),
        });
        out.push(warning);
        j += 1;
    }
    assert(vault::warnings_data(out@) =~= drift_warnings(all));
    out
}

/// Two values clash exactly if both are there and they are neither of one
/// variant, nor both numbers, nor both a date or a date-time.
pub proof fn numbers_and_dates_go_together(a: Data, b: Data)
    ensures
        incompatible(a, b) <==> !(a is Null) && !(b is Null) && !((a is Bool && b is Bool) || ((
        a is Int || a is Float) && (b is Int || b is Float)) || (a is Text && b is Text) || ((a is Date
            || a is DateTime) && (b is Date || b is DateTime)) || (a is List && b is List) || (
        a is Table && b is Table)),
{
}

proof fn no_clash_before(notes: Seq<NoteData>, key: Seq<char>)
    ensures
        first_clash(notes, key) matches Some(c) ==> 0 <= c < notes.len() && first_clash(
            notes.take(c),
            key,
        ) is None,
    decreases notes.len(),
{
    if notes.len() > 0 {
        let rest = notes.drop_last();
        no_clash_before(rest, key);
        match first_clash(notes, key) {
            Some(c) => {
                if first_clash(rest, key) is Some {
                    assert(rest.take(c) =~= notes.take(c));
                } else {
                    assert(notes.take(c) =~= rest);
                }
            },
            None => {},
        }
    }
}

/// A key that drifts is told with the first note whose value clashes with that
/// of a note before it: up to that note, no two notes clash.
pub proof fn drift_is_told_at_the_first_clash(notes: Seq<NoteData>, key: Seq<char>)
    requires
        drifts(notes, key),
        forall|i: int| 0 <= i < notes.len() ==> (#[trigger] notes[i]).frontmatter.dom().finite(),
    ensures
        exists|c: int|
            0 <= c < notes.len() && drift_warnings(notes).contains(
                WarningData {
                    path: encode_utf8((#[trigger] notes[c]).path),
                    kind: WarningKindData::TypeDrift(key),
                },
            ) && !drifts(notes.take(c), key) && drifts(notes.take(c + 1), key),
{
    drift_is_a_clash(notes, key);
    no_clash_before(notes, key);
    first_kinds(notes, key);
    let c = first_clash(notes, key)->0;
    drift_is_a_clash(notes.take(c), key);
    let i = choose|i: int|
        0 <= i < c && kind_in(#[trigger] notes[i], key) is Some && kind_in(notes[c], key) is Some
            && kind_in(notes[i], key) != kind_in(notes[c], key);
    let next = notes.take(c + 1);
    assert(next[i] == notes[i] && next[c] == notes[c]);
    assert(next[i].frontmatter.contains_key(key) && next[c].frontmatter.contains_key(key));
    assert(incompatible(next[i].frontmatter[key], next[c].frontmatter[key]));
    assert(drifts(next, key));
    drifting_keys_are_listed(notes);
    let keys = sorted::ascending(drifting(notes));
    assert(drifting(notes).contains(key));
    let k = keys.index_of(key);
    let w = WarningData {
        path: encode_utf8(notes[c].path),
        kind: WarningKindData::TypeDrift(key),
    };
    assert(drift_warnings(notes)[k] == w);
    assert(drift_warnings(notes).contains(w));
}

}
