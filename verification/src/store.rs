//! The in-memory note store: the one record set that reading, listing and
//! querying go by, keyed by vault-relative path.

use vstd::prelude::*;

use crate::lists;
use crate::sorted;
use crate::sorted::SortedMap;
use crate::text;
use crate::vault;
use crate::vault::{Note, NoteData};

verus! {

/// What the notes of a map say, by path.
pub open spec fn records(m: Map<Seq<char>, Note>) -> Map<Seq<char>, NoteData> {
    m.map_values(|n: Note| n@)
}

/// Whether every note stands under its own path.
pub open spec fn keyed(m: Map<Seq<char>, Note>) -> bool {
    forall|k: Seq<char>| #[trigger] m.contains_key(k) ==> m[k].path@ == k
}

/// Whether every note stands under its own path.
pub open spec fn well_keyed(m: Map<Seq<char>, NoteData>) -> bool {
    forall|k: Seq<char>| #[trigger] m.contains_key(k) ==> m[k].path == k
}

/// The notes with one more, which takes the place of the note of its path.
pub open spec fn upserted(m: Map<Seq<char>, NoteData>, note: NoteData) -> Map<Seq<char>, NoteData> {
    m.insert(note.path, note)
}

/// The notes with others added one after the other.
pub open spec fn all_upserted(m: Map<Seq<char>, NoteData>, notes: Seq<NoteData>) -> Map<
    Seq<char>,
    NoteData,
>
    decreases notes.len(),
{
    if notes.len() == 0 {
        m
    } else {
        upserted(all_upserted(m, notes.drop_last()), notes.last())
    }
}

/// The notes without those of some paths.
pub open spec fn all_deleted(m: Map<Seq<char>, NoteData>, paths: Seq<Seq<char>>) -> Map<
    Seq<char>,
    NoteData,
> {
    m.remove_keys(paths.to_set())
}

/// Whether a path lies in a directory, at any depth.
pub open spec fn is_under(path: Seq<char>, dir: Seq<char>) -> bool {
    text::has_prefix(path, dir + "/"@)
}

/// The notes without those that lie in a directory.
pub open spec fn tree_deleted(m: Map<Seq<char>, NoteData>, dir: Seq<char>) -> Map<
    Seq<char>,
    NoteData,
> {
    m.restrict(Set::new(|k: Seq<char>| !is_under(k, dir)))
}

/// The notes without those that lie in any of some directories.
pub open spec fn all_trees_deleted(m: Map<Seq<char>, NoteData>, dirs: Seq<Seq<char>>) -> Map<
    Seq<char>,
    NoteData,
>
    decreases dirs.len(),
{
    if dirs.len() == 0 {
        m
    } else {
        tree_deleted(all_trees_deleted(m, dirs.drop_last()), dirs.last())
    }
}

/// The note set, each note under its own path.
#[derive(Debug)]
pub struct NoteStore {
    inner: SortedMap<Note>,
    loaded: bool,
}

impl View for NoteStore {
    type V = Map<Seq<char>, NoteData>;

    closed spec fn view(&self) -> Map<Seq<char>, NoteData> {
        records(self.inner@)
    }
}

impl NoteStore {
    #[verifier::type_invariant]
    spec fn each_under_its_path(self) -> bool {
        keyed(self.inner@)
    }

    /// Whether a whole note set has been put in.
    pub closed spec fn loaded(&self) -> bool {
        self.loaded
    }

    /// A store without notes, and none put in yet.
    pub fn new() -> (r: Self)
        ensures
            r@ == Map::<Seq<char>, NoteData>::empty(),
            !r.loaded(),
    {
        let r = NoteStore { inner: SortedMap::new(), loaded: false };
        assert(r@ =~= Map::<Seq<char>, NoteData>::empty());
        r
    }

    /// Whether a whole note set has been put in: if not, that there are no notes
    /// says nothing of the vault.
    pub fn is_loaded(&self) -> (r: bool)
        ensures
            r == self.loaded(),
    {
        self.loaded
    }

    /// The notes in path order.
    pub fn notes(&self) -> (r: &SortedMap<Note>)
        ensures
            records(r@) == self@,
            keyed(r@),
            well_keyed(self@),
            self@.dom().finite(),
    {
        proof {
            use_type_invariant(self);
            assert(self@.dom() =~= self.inner@.dom());
            sorted::contents_are_finite(self.inner);
        }
        &self.inner
    }

    /// Replaces the whole note set. Of two notes of one path the later stands.
    pub fn replace(&mut self, notes: Vec<Note>)
        ensures
            final(self)@ == all_upserted(
                Map::<Seq<char>, NoteData>::empty(),
                vault::notes_data(notes@),
            ),
            final(self).loaded(),
    {
        let mut inner: SortedMap<Note> = SortedMap::new();
        assert(records(inner@) =~= Map::<Seq<char>, NoteData>::empty());
        put_all(&mut inner, notes);
        self.inner = inner;
        self.loaded = true;
    }

    /// Applies one window of changes: first the deletes, then the upserts.
    pub fn apply_batch(&mut self, upserts: Vec<Note>, deletes: &Vec<String>)
        ensures
            final(self)@ == all_upserted(
                all_deleted(old(self)@, text::views(deletes@)),
                vault::notes_data(upserts@),
            ),
            final(self).loaded() == old(self).loaded(),
    {
        proof {
            use_type_invariant(&*self);
        }
        let mut inner: SortedMap<Note> = SortedMap::new();
        std::mem::swap(&mut inner, &mut self.inner);
        drop_all(&mut inner, deletes);
        put_all(&mut inner, upserts);
        self.inner = inner;
    }

    /// Adds a note, which takes the place of the note of its path.
    pub fn upsert(&mut self, note: Note)
        ensures
            final(self)@ == upserted(old(self)@, note@),
            final(self).loaded() == old(self).loaded(),
    {
        proof {
            use_type_invariant(&*self);
        }
        let ghost before = self.inner@;
        let mut inner: SortedMap<Note> = SortedMap::new();
        std::mem::swap(&mut inner, &mut self.inner);
        inner.insert(note.path.clone(), note);
        assert(records(inner@) =~= upserted(records(before), note@));
        self.inner = inner;
    }

    /// Drops the note of a path, if there is one.
    pub fn delete(&mut self, path: &str)
        ensures
            final(self)@ == old(self)@.remove(path@),
            final(self).loaded() == old(self).loaded(),
    {
        proof {
            use_type_invariant(&*self);
        }
        let ghost before = self.inner@;
        let mut inner: SortedMap<Note> = SortedMap::new();
        std::mem::swap(&mut inner, &mut self.inner);
        inner.remove(path);
        assert(records(inner@) =~= records(before).remove(path@));
        self.inner = inner;
    }

    /// Drops the notes that lie in a directory, at any depth. A note of the
    /// directory's own name stays.
    pub fn delete_tree(&mut self, dir: &str)
        ensures
            final(self)@ == tree_deleted(old(self)@, dir@),
            final(self).loaded() == old(self).loaded(),
    {
        proof {
            use_type_invariant(&*self);
        }
        let ghost before = self.inner@;
        let mut prefix = text::copy_of(dir);
        prefix.append("/");
        let mut inner: SortedMap<Note> = SortedMap::new();
        std::mem::swap(&mut inner, &mut self.inner);
        let n: usize = inner.len();
        let ghost keys = sorted::ascending(inner@.dom());
        let mut doomed: Vec<String> = Vec::new();
        let mut i: usize = 0;
        while i < n
            invariant
                i <= n == keys.len(),
                keys == sorted::ascending(inner@.dom()),
                prefix@ == dir@ + "/"@,
                forall|k: Seq<char>| #[trigger]
                    text::views(doomed@).contains(k) <==> keys.take(i as int).contains(k)
                        && is_under(k, dir@),
            decreases n - i,
        {
            let key = inner.key_at(i);
            let ghost seen = text::views(doomed@);
            let under = text::starts_with(key.as_str(), prefix.as_str());
            if under {
                doomed.push(key.clone());
            }
            proof {
                assert forall|k: Seq<char>| #[trigger]
                    text::views(doomed@).contains(k) <==> keys.take(i + 1).contains(k) && is_under(
                        k,
                        dir@,
                    ) by {
                    lists::take_grows(keys, i as int, k);
                    if under {
                        assert(text::views(doomed@) =~= seen.push(keys[i as int]));
                        lists::push_contains(seen, keys[i as int], k);
                    }
                }
            }
            i += 1;
        }
        assert(keys.take(n as int) =~= keys);
        drop_all(&mut inner, &doomed);
        proof {
            let gone = text::views(doomed@);
            assert forall|k: Seq<char>| #[trigger] before.contains_key(k) implies gone.contains(k)
                == is_under(k, dir@) by {
                assert(before.dom().contains(k) <==> keys.contains(k));
            }
            assert(all_deleted(records(before), gone) =~= tree_deleted(records(before), dir@));
        }
        self.inner = inner;
    }

    /// A copy of the note of a path, if there is one.
    pub fn get(&self, path: &str) -> (r: Option<Note>)
        ensures
            r matches Some(note) ==> self@.contains_key(path@) && note@ == self@[path@],
            r is None ==> !self@.contains_key(path@),
    {
        match self.inner.get(path) {
            Some(note) => Some(note.clone()),
            None => None,
        }
    }

    /// How many notes there are.
    pub fn len(&self) -> (r: usize)
        ensures
            r == sorted::ascending(self@.dom()).len(),
            sorted::lists(sorted::ascending(self@.dom()), self@.dom()),
    {
        assert(self@.dom() =~= self.inner@.dom());
        self.inner.len()
    }

    /// Whether there are no notes.
    pub fn is_empty(&self) -> (r: bool)
        ensures
            r == (self@ == Map::<Seq<char>, NoteData>::empty()),
    {
        proof {
            if self.inner@ == Map::<Seq<char>, Note>::empty() {
                assert(self@ =~= Map::<Seq<char>, NoteData>::empty());
            }
            if self@ == Map::<Seq<char>, NoteData>::empty() {
                assert(self.inner@ =~= Map::<Seq<char>, Note>::empty()) by {
                    assert(self@.dom() =~= self.inner@.dom());
                }
            }
        }
        self.inner.is_empty()
    }

    /// Runs `f` on the notes in path order.
    pub fn with_read<F, R>(&self, f: F) -> (r: R) where F: FnOnce(&SortedMap<Note>) -> R
        requires
            forall|m: &SortedMap<Note>|
                records((*m)@) == self@ && keyed((*m)@) ==> #[trigger] f.requires((m,)),
        ensures
            exists|m: &SortedMap<Note>|
                records((*m)@) == self@ && keyed((*m)@) && #[trigger] f.ensures((m,), r),
    {
        f(self.notes())
    }
}

fn put_all(inner: &mut SortedMap<Note>, notes: Vec<Note>)
    requires
        keyed(old(inner)@),
    ensures
        keyed(final(inner)@),
        records(final(inner)@) == all_upserted(records(old(inner)@), vault::notes_data(notes@)),
{
    let ghost all = vault::notes_data(notes@);
    let ghost before = records(inner@);
    let mut rest = lists::reversed(notes);
    let ghost mut i: int = 0;
    assert(all.take(0) =~= seq![]);
    while rest.len() > 0
        invariant
            0 <= i == all.len() - rest@.len(),
            forall|j: int| 0 <= j < rest@.len() ==> (#[trigger] rest@[j])@ == all[all.len() - 1 - j],
            keyed(inner@),
            records(inner@) == all_upserted(before, all.take(i)),
        decreases rest@.len(),
    {
        let ghost prev = inner@;
        match rest.pop() {
            Some(note) => {
                inner.insert(note.path.clone(), note);
                proof {
                    let next = all.take(i + 1);
                    assert(next.drop_last() =~= all.take(i));
                    assert(next.last() == note@);
                    assert(records(inner@) =~= upserted(records(prev), note@));
                    i = i + 1;
                }
            },
            None => {},
        }
    }
    assert(all.take(i) =~= all);
}

fn drop_all(inner: &mut SortedMap<Note>, paths: &Vec<String>)
    requires
        keyed(old(inner)@),
    ensures
        keyed(final(inner)@),
        records(final(inner)@) == all_deleted(records(old(inner)@), text::views(paths@)),
{
    let ghost all = text::views(paths@);
    let ghost before = records(inner@);
    let mut i: usize = 0;
    assert(all_deleted(before, all.take(0)) =~= before);
    while i < paths.len()
        invariant
            i <= paths@.len(),
            all == text::views(paths@),
            keyed(inner@),
            records(inner@) == all_deleted(before, all.take(i as int)),
        decreases paths@.len() - i,
    {
        let ghost prev = inner@;
        inner.remove(paths[i].as_str());
        proof {
            let next = all.take(i + 1);
            assert forall|k: Seq<char>| #[trigger] next.to_set().contains(k) <==> all.take(
                i as int,
            ).to_set().contains(k) || k == paths@[i as int]@ by {
                lists::take_grows(all, i as int, k);
            }
            assert(records(inner@) =~= records(prev).remove(paths@[i as int]@));
            assert(records(inner@) =~= all_deleted(before, next));
        }
        i += 1;
    }
    assert(all.take(i as int) =~= all);
}

/// A note that was added is read back under its path, and no other path is
/// touched.
pub proof fn upsert_reads_back(m: Map<Seq<char>, NoteData>, note: NoteData, path: Seq<char>)
    ensures
        upserted(m, note).contains_key(note.path),
        upserted(m, note)[note.path] == note,
        path != note.path ==> upserted(m, note).contains_key(path) == m.contains_key(path),
        path != note.path && m.contains_key(path) ==> upserted(m, note)[path] == m[path],
{
}

/// Of two notes of one path that are added, the later stands alone; adding a
/// note twice changes nothing more.
pub proof fn later_upsert_stands(m: Map<Seq<char>, NoteData>, a: NoteData, b: NoteData)
    requires
        a.path == b.path,
    ensures
        upserted(upserted(m, a), b) == upserted(m, b),
{
    assert(upserted(upserted(m, a), b) =~= upserted(m, b));
}

/// The last note of a path in a list.
pub open spec fn last_of(notes: Seq<NoteData>, path: Seq<char>) -> Option<NoteData>
    decreases notes.len(),
{
    if notes.len() == 0 {
        None
    } else if notes.last().path == path {
        Some(notes.last())
    } else {
        last_of(notes.drop_last(), path)
    }
}

/// After notes are added, a path holds the last of them that is its own, or
/// else what it held before.
pub proof fn upserts_read_back(m: Map<Seq<char>, NoteData>, notes: Seq<NoteData>, path: Seq<char>)
    ensures
        match last_of(notes, path) {
            Some(note) => all_upserted(m, notes).contains_key(path) && all_upserted(m, notes)[path]
                == note,
            None => all_upserted(m, notes).contains_key(path) == m.contains_key(path) && (
            m.contains_key(path) ==> all_upserted(m, notes)[path] == m[path]),
        },
    decreases notes.len(),
{
    if notes.len() > 0 {
        upserts_read_back(m, notes.drop_last(), path);
    }
}

/// A batch applies its deletes first, so a path that it deletes and adds is
/// held with the added note, and a path that it only deletes is not held.
pub proof fn batch_deletes_first(
    m: Map<Seq<char>, NoteData>,
    deletes: Seq<Seq<char>>,
    upserts: Seq<NoteData>,
    path: Seq<char>,
)
    requires
        deletes.contains(path),
    ensures
        match last_of(upserts, path) {
            Some(note) => all_upserted(all_deleted(m, deletes), upserts).contains_key(path)
                && all_upserted(all_deleted(m, deletes), upserts)[path] == note,
            None => !all_upserted(all_deleted(m, deletes), upserts).contains_key(path),
        },
{
    upserts_read_back(all_deleted(m, deletes), upserts, path);
}

/// Every change keeps each note under its own path, and keeps the notes finite
/// in number.
pub proof fn changes_keep_notes_keyed(
    m: Map<Seq<char>, NoteData>,
    notes: Seq<NoteData>,
    deletes: Seq<Seq<char>>,
    dirs: Seq<Seq<char>>,
)
    requires
        well_keyed(m),
        m.dom().finite(),
    ensures
        well_keyed(all_upserted(m, notes)) && all_upserted(m, notes).dom().finite(),
        well_keyed(all_deleted(m, deletes)) && all_deleted(m, deletes).dom().finite(),
        well_keyed(all_trees_deleted(m, dirs)) && all_trees_deleted(m, dirs).dom().finite(),
    decreases notes.len() + dirs.len(),
{
    assert(all_deleted(m, deletes).dom() =~= m.dom().difference(deletes.to_set()));
    if notes.len() > 0 {
        changes_keep_notes_keyed(m, notes.drop_last(), deletes, seq![]);
    }
    if dirs.len() > 0 {
        changes_keep_notes_keyed(m, seq![], deletes, dirs.drop_last());
        let before = all_trees_deleted(m, dirs.drop_last());
        assert(tree_deleted(before, dirs.last()).dom() =~= before.dom().intersect(
            Set::new(|k: Seq<char>| !is_under(k, dirs.last())),
        ));
    }
}

/// Deleting a note and deleting the notes in a directory of its name touch
/// different paths.
pub proof fn note_and_tree_deletes_are_disjoint(m: Map<Seq<char>, NoteData>, path: Seq<char>)
    ensures
        !is_under(path, path),
        m.contains_key(path) ==> tree_deleted(m, path).contains_key(path),
        tree_deleted(m, path).remove(path) == tree_deleted(m.remove(path), path),
{
    reveal_strlit("/");
    assert((path + "/"@).len() == path.len() + 1);
    assert(tree_deleted(m, path).remove(path) =~= tree_deleted(m.remove(path), path));
}

/// A path lies in a directory exactly if it is the directory, a slash and
/// something behind it.
pub proof fn under_is_behind_a_slash(path: Seq<char>, dir: Seq<char>, rest: Seq<char>)
    ensures
        is_under(dir + seq!['/'] + rest, dir),
        is_under(path, dir) <==> path.len() > dir.len() && path.take(dir.len() as int) == dir
            && path[dir.len() as int] == '/',
{
    reveal_strlit("/");
    let full = dir + "/"@;
    let n = dir.len() as int;
    assert("/"@ =~= seq!['/']);
    assert((dir + seq!['/'] + rest).take(n + 1) =~= full);
    if is_under(path, dir) {
        assert(path.take(n) =~= full.take(n));
        assert(full.take(n) =~= dir);
        assert(path.take(n + 1)[n] == full[n]);
    }
    if path.len() > n && path.take(n) == dir && path[n] == '/' {
        assert(path.take(n + 1) =~= path.take(n) + seq!['/']);
    }
}

/// After notes are put in, a path holds the one of them that is its own and
/// that no other of its path comes after. A path that none of them has holds
/// what it held before.
pub proof fn the_note_put_in_last_is_held(
    m: Map<Seq<char>, NoteData>,
    notes: Seq<NoteData>,
    path: Seq<char>,
    i: int,
)
    ensures
        (0 <= i < notes.len() && notes[i].path == path && forall|j: int|
            i < j < notes.len() ==> (#[trigger] notes[j]).path != path) ==> all_upserted(
            m,
            notes,
        ).contains_key(path) && all_upserted(m, notes)[path] == notes[i],
        (forall|j: int| 0 <= j < notes.len() ==> (#[trigger] notes[j]).path != path) ==> (
        all_upserted(m, notes).contains_key(path) <==> m.contains_key(path)) && (m.contains_key(
            path,
        ) ==> all_upserted(m, notes)[path] == m[path]),
    decreases notes.len(),
{
    if notes.len() > 0 {
        let rest = notes.drop_last();
        let n = notes.len() - 1;
        the_note_put_in_last_is_held(m, rest, path, i);
        if 0 <= i < n && notes[i].path == path && forall|j: int|
            i < j < notes.len() ==> (#[trigger] notes[j]).path != path {
            assert(rest[i] == notes[i]);
            assert(notes[n].path != path);
            assert forall|j: int| i < j < rest.len() implies (#[trigger] rest[j]).path != path by {
                assert(notes[j] == rest[j]);
            }
        }
        if forall|j: int| 0 <= j < notes.len() ==> (#[trigger] notes[j]).path != path {
            assert(notes[n].path != path);
            assert forall|j: int| 0 <= j < rest.len() implies (#[trigger] rest[j]).path != path by {
                assert(notes[j] == rest[j]);
            }
        }
    }
}

/// After paths are dropped, a path is held exactly if it was held and is not
/// one of them; it holds what it held.
pub proof fn only_what_is_named_is_dropped(
    m: Map<Seq<char>, NoteData>,
    paths: Seq<Seq<char>>,
    path: Seq<char>,
)
    ensures
        all_deleted(m, paths).contains_key(path) <==> m.contains_key(path) && !paths.contains(path),
        all_deleted(m, paths).contains_key(path) ==> all_deleted(m, paths)[path] == m[path],
{
    assert(paths.to_set().contains(path) <==> paths.contains(path));
}

}
