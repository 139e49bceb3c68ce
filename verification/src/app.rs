//! The processes of the daemon: their messages, what each message does, and
//! how often each process was restarted.

use vstd::prelude::*;

use crate::dates;
use crate::dates::Instant;
use crate::health::{HealthData, HealthState, WatcherState};
use crate::sorted::SortedMap;
use crate::store;
use crate::store::NoteStore;
use crate::text;
use crate::vault;
use crate::vault::{Note, NoteData, ScanResult};

verus! {

/// How many milliseconds of file system events make one batch.
pub const WATCH_DEBOUNCE_WINDOW_MS: u64 = 100;

/// Counts how often one process was started again.
#[derive(Debug)]
pub struct RoleCounter {
    started: bool,
    restarts: u32,
}

/// What a [`RoleCounter`] holds.
#[verifier::ext_equal]
pub struct CounterData {
    pub started: bool,
    pub restarts: nat,
}

impl View for RoleCounter {
    type V = CounterData;

    closed spec fn view(&self) -> CounterData {
        CounterData { started: self.started, restarts: self.restarts as nat }
    }
}

/// The counter of a process that was not started yet.
pub open spec fn not_started() -> CounterData {
    CounterData { started: false, restarts: 0 }
}

/// The counter after one more start: only a start after the first counts.
pub open spec fn counted(c: CounterData) -> CounterData {
    CounterData {
        started: true,
        restarts: if c.started {
            c.restarts + 1
        } else {
            c.restarts
        },
    }
}

/// The counter after `n` starts.
pub open spec fn after_starts(n: nat) -> CounterData
    decreases n,
{
    if n == 0 {
        not_started()
    } else {
        counted(after_starts((n - 1) as nat))
    }
}

impl Default for RoleCounter {
    fn default() -> (r: Self)
        ensures
            r@ == not_started(),
    {
        RoleCounter { started: false, restarts: 0 }
    }
}

impl RoleCounter {
    #[verifier::type_invariant]
    spec fn restarts_follow_a_start(self) -> bool {
        !self.started ==> self.restarts == 0
    }

    /// Counts a start. Gives back how many restarts there were.
    pub fn record_init(&mut self) -> (r: u32)
        requires
            old(self)@.restarts < u32::MAX,
        ensures
            final(self)@ == counted(old(self)@),
            r == final(self)@.restarts,
    {
        proof {
            use_type_invariant(&*self);
        }
        if self.started {
            self.restarts = self.restarts + 1;
            self.restarts
        } else {
            self.started = true;
            0
        }
    }

    /// How many restarts there were.
    pub fn get(&self) -> (r: u32)
        ensures
            r == self@.restarts,
    {
        self.restarts
    }
}

/// A process that was started `n` times was restarted one time less.
pub proof fn restarts_are_starts_less_one(n: nat)
    ensures
        after_starts(n).started == (n > 0),
        n > 0 ==> after_starts(n).restarts == n - 1,
        n == 0 ==> after_starts(n).restarts == 0,
    decreases n,
{
    if n > 0 {
        restarts_are_starts_less_one((n - 1) as nat);
    }
}

/// The restart counters of the four processes.
#[derive(Debug)]
pub struct RestartCounters {
    pub vault_scanner: RoleCounter,
    pub filesystem_watcher: RoleCounter,
    pub index_writer: RoleCounter,
    pub http_server: RoleCounter,
}

impl Default for RestartCounters {
    fn default() -> (r: Self)
        ensures
            r.vault_scanner@ == not_started(),
            r.filesystem_watcher@ == not_started(),
            r.index_writer@ == not_started(),
            r.http_server@ == not_started(),
    {
        RestartCounters {
            vault_scanner: RoleCounter { started: false, restarts: 0 },
            filesystem_watcher: RoleCounter { started: false, restarts: 0 },
            index_writer: RoleCounter { started: false, restarts: 0 },
            http_server: RoleCounter { started: false, restarts: 0 },
        }
    }
}

/// The restart counts by the names of the processes.
pub open spec fn counts(c: RestartCounters) -> Map<Seq<char>, nat> {
    Map::<Seq<char>, nat>::empty().insert("vault_scanner"@, c.vault_scanner@.restarts).insert(
        "filesystem_watcher"@,
        c.filesystem_watcher@.restarts,
    ).insert("index_writer"@, c.index_writer@.restarts).insert(
        "http_server"@,
        c.http_server@.restarts,
    )
}

impl RestartCounters {
    /// Counters of processes that were not started yet.
    pub fn new() -> (r: Self)
        ensures
            r.vault_scanner@ == not_started(),
            r.filesystem_watcher@ == not_started(),
            r.index_writer@ == not_started(),
            r.http_server@ == not_started(),
    {
        RestartCounters {
            vault_scanner: RoleCounter { started: false, restarts: 0 },
            filesystem_watcher: RoleCounter { started: false, restarts: 0 },
            index_writer: RoleCounter { started: false, restarts: 0 },
            http_server: RoleCounter { started: false, restarts: 0 },
        }
    }

    /// The restart counts by the names of the processes, as the health report
    /// shows them.
    pub fn snapshot(&self) -> (r: SortedMap<u32>)
        ensures
            r@.map_values(|n: u32| n as nat) == counts(*self),
    {
        let mut out: SortedMap<u32> = SortedMap::new();
        out.insert(text::copy_of("vault_scanner"), self.vault_scanner.get());
        out.insert(text::copy_of("filesystem_watcher"), self.filesystem_watcher.get());
        out.insert(text::copy_of("index_writer"), self.index_writer.get());
        out.insert(text::copy_of("http_server"), self.http_server.get());
        assert(out@.map_values(|n: u32| n as nat) =~= counts(*self));
        out
    }
}

/// What the scanner can be told: to walk through the vault again.
#[derive(Debug, Clone, Copy, PartialEq, Eq)]
pub enum VaultScannerMessage {
    RescanNow,
}

/// The watcher takes no messages.
#[derive(Debug, Clone, Copy, PartialEq, Eq)]
pub enum FilesystemWatcherMessage {
    Noop,
}

/// The HTTP server takes no messages.
#[derive(Debug, Clone, Copy, PartialEq, Eq)]
pub enum HttpServerMessage {
    Noop,
}

/// One batch of changes to the note set.
#[derive(Debug)]
pub struct IndexBatch {
    pub upserts: Vec<Note>,
    pub deletes: Vec<String>,
    /// Directories whose notes are dropped before any are added.
    pub delete_prefixes: Vec<String>,
}

/// What an [`IndexBatch`] says.
#[verifier::ext_equal]
pub struct BatchData {
    pub upserts: Seq<NoteData>,
    pub deletes: Seq<Seq<char>>,
    pub delete_prefixes: Seq<Seq<char>>,
}

impl View for IndexBatch {
    type V = BatchData;

    open spec fn view(&self) -> BatchData {
        BatchData {
            upserts: vault::notes_data(self.upserts@),
            deletes: text::views(self.deletes@),
            delete_prefixes: text::views(self.delete_prefixes@),
        }
    }
}

/// What the index writer can be told.
#[derive(Debug)]
pub enum IndexWriterMessage {
    /// Replace the whole note set.
    Rebuild(Vec<Note>),
    /// Apply one window of changes.
    Batch(IndexBatch),
    /// Add one note.
    Upsert(Box<Note>),
    /// Drop the note of one path.
    Delete(String),
}

/// The notes after a batch: directories and notes are dropped first, then
/// notes are added.
pub open spec fn batch_applied(m: Map<Seq<char>, NoteData>, b: BatchData) -> Map<
    Seq<char>,
    NoteData,
> {
    store::all_upserted(
        store::all_deleted(store::all_trees_deleted(m, b.delete_prefixes), b.deletes),
        b.upserts,
    )
}

/// The notes after a message.
pub open spec fn message_applied(
    m: Map<Seq<char>, NoteData>,
    message: IndexWriterMessage,
) -> Map<Seq<char>, NoteData> {
    match message {
        IndexWriterMessage::Rebuild(notes) => store::all_upserted(
            Map::empty(),
            vault::notes_data(notes@),
        ),
        IndexWriterMessage::Batch(batch) => batch_applied(m, batch@),
        IndexWriterMessage::Upsert(note) => store::upserted(m, note@),
        IndexWriterMessage::Delete(path) => m.remove(path@),
    }
}

/// Does what the index writer is told, and notes when.
pub fn handle_index_message(
    store: &mut NoteStore,
    health: &mut HealthState,
    message: IndexWriterMessage,
    now: Instant,
)
    ensures
        final(store)@ == message_applied(old(store)@, message),
        final(store).loaded() == (old(store).loaded() || message is Rebuild),
        final(health)@ == (HealthData {
            last_index_update_ms: dates::millis(now@),
            ..old(health)@
        }),
{
    match message {
        IndexWriterMessage::Rebuild(notes) => {
            store.replace(notes);
        },
        IndexWriterMessage::Batch(batch) => {
            let ghost before = store@;
            let ghost dirs = text::views(batch.delete_prefixes@);
            let mut i: usize = 0;
            assert(dirs.take(0) =~= seq![]);
            while i < batch.delete_prefixes.len()
                invariant
                    i <= batch.delete_prefixes@.len(),
                    dirs == text::views(batch.delete_prefixes@),
                    store@ == store::all_trees_deleted(before, dirs.take(i as int)),
                    store.loaded() == old(store).loaded(),
                decreases batch.delete_prefixes@.len() - i,
            {
                store.delete_tree(batch.delete_prefixes[i].as_str());
                proof {
                    assert(dirs.take(i + 1).drop_last() =~= dirs.take(i as int));
                }
                i += 1;
            }
            assert(dirs.take(i as int) =~= dirs);
            store.apply_batch(batch.upserts, &batch.deletes);
        },
        IndexWriterMessage::Upsert(note) => {
            store.upsert(*note);
        },
        IndexWriterMessage::Delete(path) => {
            store.delete(path.as_str());
        },
    }
    health.record_index_update(now);
}

/// After a walk through the vault: the walk is no longer under way, and the
/// notes found go to the index writer.
pub fn finish_walk(health: &mut HealthState, result: ScanResult) -> (r: IndexWriterMessage)
    ensures
        r == IndexWriterMessage::Rebuild(result.notes),
        final(health)@ == (HealthData { in_flight_rescan: false, ..old(health)@ }),
{
    health.set_in_flight_rescan(false);
    IndexWriterMessage::Rebuild(result.notes)
}

/// How far the watcher came when it was started.
#[derive(Debug)]
pub enum WatcherStart {
    /// The watcher could not be made.
    NotMade(String),
    /// The vault could not be watched.
    NotWatching(String),
    /// The watcher is bound.
    Bound,
}

/// Why a watcher that was started has to stop again.
pub open spec fn watcher_failure(start: WatcherStart) -> Option<Seq<char>> {
    match start {
        WatcherStart::NotMade(e) => Some("filesystem_watcher: recommended_watcher: "@ + e@),
        WatcherStart::NotWatching(e) => Some("filesystem_watcher: watch: "@ + e@),
        WatcherStart::Bound => None,
    }
}

/// After the watcher was started: it runs, or it is degraded and has to stop.
pub fn watcher_started(health: &mut HealthState, start: WatcherStart) -> (r: Result<(), String>)
    ensures
        match watcher_failure(start) {
            Some(e) => (r matches Err(m) && m@ == e) && final(health)@ == (HealthData {
                watcher_state: WatcherState::Degraded,
                ..old(health)@
            }),
            None => r is Ok && final(health)@ == (HealthData {
                watcher_state: WatcherState::Running,
                ..old(health)@
            }),
        },
{
    match start {
        WatcherStart::NotMade(e) => {
            health.set_watcher_state(WatcherState::Degraded);
            Err(text::concat("filesystem_watcher: recommended_watcher: ", e.as_str()))
        },
        WatcherStart::NotWatching(e) => {
            health.set_watcher_state(WatcherState::Degraded);
            Err(text::concat("filesystem_watcher: watch: ", e.as_str()))
        },
        WatcherStart::Bound => {
            health.set_watcher_state(WatcherState::Running);
            Ok(())
        },
    }
}

/// What a process answers to a call: it takes casts only.
pub fn call_not_supported(role: &str) -> (r: String)
    ensures
        r@ == role@ + " does not handle synchronous calls; use cast"@,
{
    text::concat(role, " does not handle synchronous calls; use cast")
}

/// A path is held after directories are dropped if it was held before and lies
/// in none of them.
pub proof fn trees_drop_what_lies_in_them(
    m: Map<Seq<char>, NoteData>,
    dirs: Seq<Seq<char>>,
    path: Seq<char>,
)
    ensures
        store::all_trees_deleted(m, dirs).contains_key(path) <==> m.contains_key(path) && forall|
            i: int,
        |
            0 <= i < dirs.len() ==> !store::is_under(path, #[trigger] dirs[i]),
        store::all_trees_deleted(m, dirs).contains_key(path) ==> store::all_trees_deleted(
            m,
            dirs,
        )[path] == m[path],
    decreases dirs.len(),
{
    if dirs.len() > 0 {
        let rest = dirs.drop_last();
        trees_drop_what_lies_in_them(m, rest, path);
        assert(forall|i: int| 0 <= i < rest.len() ==> rest[i] == dirs[i]);
        assert(dirs.last() == dirs[dirs.len() - 1]);
        if store::all_trees_deleted(m, dirs).contains_key(path) {
            assert forall|i: int| 0 <= i < dirs.len() implies !store::is_under(
                path,
                #[trigger] dirs[i],
            ) by {
                if i < rest.len() {
                    assert(!store::is_under(path, rest[i]));
                }
            }
        }
    }
}

/// After a batch, the notes in a directory that it drops are exactly those that
/// the batch adds there.
pub proof fn dropped_tree_holds_what_is_added(
    m: Map<Seq<char>, NoteData>,
    b: BatchData,
    dir: Seq<char>,
    path: Seq<char>,
)
    requires
        b.delete_prefixes.contains(dir),
        store::is_under(path, dir),
    ensures
        batch_applied(m, b).contains_key(path) <==> store::last_of(b.upserts, path) is Some,
        store::last_of(b.upserts, path) matches Some(note) ==> batch_applied(m, b)[path] == note,
{
    let kept = store::all_trees_deleted(m, b.delete_prefixes);
    trees_drop_what_lies_in_them(m, b.delete_prefixes, path);
    let i = b.delete_prefixes.index_of(dir);
    assert(store::is_under(path, b.delete_prefixes[i]));
    store::upserts_read_back(store::all_deleted(kept, b.deletes), b.upserts, path);
}

/// After a batch, a path that it adds notes for holds the last of them. Any
/// other path is held exactly if it was held, the batch does not drop it, and
/// it lies in no directory that the batch drops; it holds what it held.
pub proof fn batches_change_what_they_name(
    m: Map<Seq<char>, NoteData>,
    b: BatchData,
    path: Seq<char>,
    i: int,
)
    ensures
        (0 <= i < b.upserts.len() && b.upserts[i].path == path && forall|j: int|
            i < j < b.upserts.len() ==> (#[trigger] b.upserts[j]).path != path) ==> batch_applied(
            m,
            b,
        ).contains_key(path) && batch_applied(m, b)[path] == b.upserts[i],
        (forall|j: int| 0 <= j < b.upserts.len() ==> (#[trigger] b.upserts[j]).path != path) ==> (
        batch_applied(m, b).contains_key(path) <==> m.contains_key(path) && !b.deletes.contains(path)
            && forall|j: int|
            0 <= j < b.delete_prefixes.len() ==> !store::is_under(
                path,
                #[trigger] b.delete_prefixes[j],
            )) && (batch_applied(m, b).contains_key(path) ==> batch_applied(m, b)[path] == m[path]),
{
    let kept = store::all_trees_deleted(m, b.delete_prefixes);
    let left = store::all_deleted(kept, b.deletes);
    trees_drop_what_lies_in_them(m, b.delete_prefixes, path);
    store::only_what_is_named_is_dropped(kept, b.deletes, path);
    store::the_note_put_in_last_is_held(left, b.upserts, path, i);
}

/// A rebuild leaves only the notes that it brings, the last of each path; one
/// note that is put in or dropped changes no other path.
pub proof fn messages_change_what_they_name(
    m: Map<Seq<char>, NoteData>,
    message: IndexWriterMessage,
    path: Seq<char>,
)
    ensures
        ({
            let after = message_applied(m, message);
            match message {
                IndexWriterMessage::Rebuild(notes) => (after.contains_key(path) <==> exists|i: int|
                    0 <= i < notes@.len() && (#[trigger] notes@[i]).path@ == path) && (
                after.contains_key(path) ==> exists|i: int|
                    0 <= i < notes@.len() && after[path] == (#[trigger] notes@[i])@ && forall|j: int|
                        i < j < notes@.len() ==> (#[trigger] notes@[j]).path@ != path),
                IndexWriterMessage::Batch(batch) => after == batch_applied(m, batch@),
                IndexWriterMessage::Upsert(note) => after.contains_key(note.path@) && after[note.path@]
                    == note@ && (path != note.path@ ==> (after.contains_key(path) <==> m.contains_key(
                    path,
                )) && (m.contains_key(path) ==> after[path] == m[path])),
                IndexWriterMessage::Delete(gone) => (after.contains_key(path) <==> m.contains_key(path)
                    && path != gone@) && (after.contains_key(path) ==> after[path] == m[path]),
            }
        }),
{
    match message {
        IndexWriterMessage::Rebuild(notes) => {
            let all = vault::notes_data(notes@);
            let none = Map::<Seq<char>, NoteData>::empty();
            store::the_note_put_in_last_is_held(none, all, path, 0);
            if exists|i: int| 0 <= i < notes@.len() && (#[trigger] notes@[i]).path@ == path {
                let i = choose|i: int| 0 <= i < notes@.len() && (#[trigger] notes@[i]).path@ == path;
                assert(all[i].path == path);
                let k = last_at(all, path, i);
                assert(all[k] == notes@[k]@);
                assert forall|j: int| k < j < notes@.len() implies (#[trigger] notes@[j]).path@
                    != path by {
                    assert(all[j].path == notes@[j].path@);
                }
                store::the_note_put_in_last_is_held(none, all, path, k);
            } else {
                assert forall|j: int| 0 <= j < all.len() implies (#[trigger] all[j]).path
                    != path by {
                    assert(notes@[j].path@ == all[j].path);
                }
            }
        },
        _ => {},
    }
}

proof fn last_at(notes: Seq<NoteData>, path: Seq<char>, i: int) -> (k: int)
    requires
        0 <= i < notes.len(),
        notes[i].path == path,
    ensures
        i <= k < notes.len(),
        notes[k].path == path,
        forall|j: int| k < j < notes.len() ==> (#[trigger] notes[j]).path != path,
    decreases notes.len() - i,
{
    if exists|j: int| i < j < notes.len() && (#[trigger] notes[j]).path == path {
        let j = choose|j: int| i < j < notes.len() && (#[trigger] notes[j]).path == path;
        last_at(notes, path, j)
    } else {
        i
    }
}

/// The restart counts stand each under the name of its own process.
pub proof fn counts_stand_by_process(c: RestartCounters)
    ensures
        counts(c).dom().len() == 4,
        counts(c)["vault_scanner"@] == c.vault_scanner@.restarts,
        counts(c)["filesystem_watcher"@] == c.filesystem_watcher@.restarts,
        counts(c)["index_writer"@] == c.index_writer@.restarts,
        counts(c)["http_server"@] == c.http_server@.restarts,
{
    reveal_strlit("vault_scanner");
    reveal_strlit("filesystem_watcher");
    reveal_strlit("index_writer");
    reveal_strlit("http_server");
    assert("vault_scanner"@.len() == 13 && "filesystem_watcher"@.len() == 18);
    assert("index_writer"@.len() == 12 && "http_server"@.len() == 11);
}

/// A watcher that could not be made or could not watch fails with what its
/// error says; one that is bound does not fail.
pub proof fn watcher_failures_say_why(e: String)
    ensures
        watcher_failure(WatcherStart::Bound) is None,
        watcher_failure(WatcherStart::NotMade(e)) matches Some(m) && text::is_within(e@, m),
        watcher_failure(WatcherStart::NotWatching(e)) matches Some(m) && text::is_within(e@, m),
{
    let none = Seq::<char>::empty();
    text::within_by("filesystem_watcher: recommended_watcher: "@, e@, none);
    text::within_by("filesystem_watcher: watch: "@, e@, none);
    assert("filesystem_watcher: recommended_watcher: "@ + e@ + none
        =~= "filesystem_watcher: recommended_watcher: "@ + e@);
    assert("filesystem_watcher: watch: "@ + e@ + none =~= "filesystem_watcher: watch: "@ + e@);
}

/// A call that is not taken is answered with the name of the process.
pub proof fn refused_calls_name_the_process(role: &str, r: String)
    requires
        call_ensures(call_not_supported, (role,), r),
    ensures
        text::has_prefix(r@, role@),
        r@.len() > role@.len(),
{
    reveal_strlit(" does not handle synchronous calls; use cast");
    assert(r@.take(role@.len() as int) =~= role@);
}

}
