//! File system events: what each says of the notes, and how the events of one
//! window come to one batch of changes.
//!
//! A native event names only a directory when one is created, removed or
//! renamed; the files in it give no events of their own. So a directory has
//! actions of its own, which cover every note in it.

use vstd::prelude::*;
use vstd::utf8::{decode_utf8, decode_utf8_encode_utf8, encode_utf8};

use crate::app::{BatchData, IndexBatch};
use crate::lists;
use crate::names;
use crate::paths;
use crate::sorted;
use crate::sorted::SortedMap;
use crate::text;
use crate::vault;
use crate::vault::{
    FileOutcome, IssueData, IssueKindData, Note, NoteData, OutcomeData, ScanIssue, ScanIssueKind,
    WalkData, WalkItem,
};

verus! {

/// How a file was open when it was accessed.
#[derive(Debug, Clone, Copy, PartialEq, Eq, Structural)]
pub enum AccessMode {
    Any,
    Execute,
    Read,
    Write,
    Other,
}

/// What kind of access an event reports.
#[derive(Debug, Clone, Copy, PartialEq, Eq, Structural)]
pub enum AccessKind {
    Any,
    Read,
    Open(AccessMode),
    Close(AccessMode),
    Other,
}

/// Which side of a rename an event reports.
#[derive(Debug, Clone, Copy, PartialEq, Eq, Structural)]
pub enum RenameMode {
    Any,
    To,
    From,
    Both,
    Other,
}

/// What kind of change an event reports.
#[derive(Debug, Clone, Copy, PartialEq, Eq, Structural)]
pub enum ModifyKind {
    Any,
    Data,
    Metadata,
    Name(RenameMode),
    Other,
}

/// What an event reports.
#[derive(Debug, Clone, Copy, PartialEq, Eq, Structural)]
pub enum EventKind {
    Any,
    Access(AccessKind),
    Create,
    Modify(ModifyKind),
    Remove,
    Other,
}

/// A path that an event names, and what the file system says of it now.
#[derive(Debug)]
pub struct EventPath {
    pub path: Vec<u8>,
    pub is_dir: bool,
    pub exists: bool,
}

/// What an [`EventPath`] says.
#[verifier::ext_equal]
pub struct PathData {
    pub path: Seq<u8>,
    pub is_dir: bool,
    pub exists: bool,
}

impl View for EventPath {
    type V = PathData;

    open spec fn view(&self) -> PathData {
        PathData { path: self.path@, is_dir: self.is_dir, exists: self.exists }
    }
}

/// A native file system event.
#[derive(Debug)]
pub struct Event {
    pub kind: EventKind,
    /// Whether events were lost, so that only a new walk can tell.
    pub rescan: bool,
    pub paths: Vec<EventPath>,
}

/// What an [`Event`] says.
#[verifier::ext_equal]
pub struct EventData {
    pub kind: EventKind,
    pub rescan: bool,
    pub paths: Seq<PathData>,
}

/// What a list of event paths says.
pub open spec fn event_paths(v: Seq<EventPath>) -> Seq<PathData> {
    v.map_values(|p: EventPath| p@)
}

impl View for Event {
    type V = EventData;

    open spec fn view(&self) -> EventData {
        EventData { kind: self.kind, rescan: self.rescan, paths: event_paths(self.paths@) }
    }
}

/// One thing to do for one path, which is relative to the vault root.
#[derive(Debug, PartialEq, Eq)]
pub enum WatchAction {
    /// Read a note.
    Upsert(String),
    /// Drop a note.
    Delete(String),
    /// Walk a directory for notes.
    UpsertTree(String),
    /// Drop the notes of a directory.
    DeleteTree(String),
}

/// What a [`WatchAction`] says.
pub enum ActionData {
    Upsert(Seq<char>),
    Delete(Seq<char>),
    UpsertTree(Seq<char>),
    DeleteTree(Seq<char>),
}

impl View for WatchAction {
    type V = ActionData;

    open spec fn view(&self) -> ActionData {
        match self {
            WatchAction::Upsert(p) => ActionData::Upsert(p@),
            WatchAction::Delete(p) => ActionData::Delete(p@),
            WatchAction::UpsertTree(p) => ActionData::UpsertTree(p@),
            WatchAction::DeleteTree(p) => ActionData::DeleteTree(p@),
        }
    }
}

/// What a list of actions says.
pub open spec fn actions_data(v: Seq<WatchAction>) -> Seq<ActionData> {
    v.map_values(|a: WatchAction| a@)
}

/// What an event means for the paths that it names.
#[derive(Debug, Clone, Copy, PartialEq, Eq, Structural)]
pub enum EventAction {
    /// A file has new contents.
    Modify,
    /// A path came into being.
    Appear,
    /// A path is gone.
    Vanish,
    /// The first path became the second.
    Rename,
    /// One side of a rename, and it is not said which.
    RenameUnpaired,
}

/// What a kind of event means.
pub open spec fn meaning(kind: EventKind) -> Option<EventAction> {
    match kind {
        EventKind::Modify(ModifyKind::Data) => Some(EventAction::Modify),
        EventKind::Modify(ModifyKind::Metadata) => Some(EventAction::Modify),
        EventKind::Modify(ModifyKind::Any) => Some(EventAction::Modify),
        EventKind::Access(AccessKind::Close(AccessMode::Write)) => Some(EventAction::Modify),
        EventKind::Create => Some(EventAction::Appear),
        EventKind::Modify(ModifyKind::Name(RenameMode::To)) => Some(EventAction::Appear),
        EventKind::Modify(ModifyKind::Name(RenameMode::From)) => Some(EventAction::Vanish),
        EventKind::Remove => Some(EventAction::Vanish),
        EventKind::Modify(ModifyKind::Name(RenameMode::Both)) => Some(EventAction::Rename),
        EventKind::Modify(ModifyKind::Name(RenameMode::Any)) => Some(EventAction::RenameUnpaired),
        EventKind::Modify(ModifyKind::Name(RenameMode::Other)) => Some(
            EventAction::RenameUnpaired,
        ),
        _ => None,
    }
}

/// What a kind of event means for the paths that it names; none if nothing.
pub fn classify(kind: EventKind) -> (r: Option<EventAction>)
    ensures
        r == meaning(kind),
{
    match kind {
        EventKind::Modify(m) => match m {
            ModifyKind::Data => Some(EventAction::Modify),
            ModifyKind::Metadata => Some(EventAction::Modify),
            ModifyKind::Any => Some(EventAction::Modify),
            ModifyKind::Name(mode) => match mode {
                RenameMode::To => Some(EventAction::Appear),
                RenameMode::From => Some(EventAction::Vanish),
                RenameMode::Both => Some(EventAction::Rename),
                RenameMode::Any => Some(EventAction::RenameUnpaired),
                RenameMode::Other => Some(EventAction::RenameUnpaired),
            },
            ModifyKind::Other => None,
        },
        EventKind::Access(AccessKind::Close(AccessMode::Write)) => Some(EventAction::Modify),
        EventKind::Create => Some(EventAction::Appear),
        EventKind::Remove => Some(EventAction::Vanish),
        _ => None,
    }
}

/// The path of a note that an absolute path names: a Markdown file inside the
/// vault, and in no dot-prefixed directory.
pub open spec fn note_at(root: Seq<u8>, p: Seq<u8>) -> Option<Seq<char>> {
    if paths::is_markdown_path(p) {
        paths::relative_text(root, p)
    } else {
        None
    }
}

/// The path of a directory that an absolute path names. The vault root itself
/// has none: what happens to it is no matter of single directories.
pub open spec fn tree_at(root: Seq<u8>, p: Seq<u8>) -> Option<Seq<char>> {
    match paths::relative_text(root, p) {
        Some(rel) => if rel.len() == 0 {
            None
        } else {
            Some(rel)
        },
        None => None,
    }
}

/// What to do for a path that is there: walk it if it is a directory, else
/// read it if it is a note.
pub open spec fn appeared(root: Seq<u8>, p: PathData) -> Seq<ActionData> {
    if p.is_dir {
        match tree_at(root, p.path) {
            Some(rel) => seq![ActionData::UpsertTree(rel)],
            None => seq![],
        }
    } else {
        match note_at(root, p.path) {
            Some(rel) => seq![ActionData::Upsert(rel)],
            None => seq![],
        }
    }
}

/// What to do for a path that is gone: it can no longer be told whether it was
/// a note or a directory, so both are dropped.
pub open spec fn vanished(root: Seq<u8>, p: PathData) -> Seq<ActionData> {
    (match note_at(root, p.path) {
        Some(rel) => seq![ActionData::Delete(rel)],
        None => seq![],
    }) + (match tree_at(root, p.path) {
        Some(rel) => seq![ActionData::DeleteTree(rel)],
        None => seq![],
    })
}

/// What to do for a path with new contents: read it if it is a note.
pub open spec fn modified(root: Seq<u8>, p: PathData) -> Seq<ActionData> {
    match note_at(root, p.path) {
        Some(rel) => seq![ActionData::Upsert(rel)],
        None => seq![],
    }
}

/// What to do for one path of an event.
pub open spec fn path_actions(action: EventAction, root: Seq<u8>, p: PathData) -> Seq<ActionData> {
    match action {
        EventAction::Modify => modified(root, p),
        EventAction::Appear => appeared(root, p),
        EventAction::Vanish => vanished(root, p),
        _ => if p.exists {
            appeared(root, p)
        } else {
            vanished(root, p)
        },
    }
}

/// What to do for several paths of an event, one after the other.
pub open spec fn all_path_actions(
    action: EventAction,
    root: Seq<u8>,
    ps: Seq<PathData>,
) -> Seq<ActionData>
    decreases ps.len(),
{
    if ps.len() == 0 {
        seq![]
    } else {
        all_path_actions(action, root, ps.drop_last()) + path_actions(action, root, ps.last())
    }
}

/// What to do for an event: nothing for single paths if events were lost.
pub open spec fn event_actions(e: EventData, root: Seq<u8>) -> Seq<ActionData> {
    if e.rescan {
        seq![]
    } else {
        match meaning(e.kind) {
            None => seq![],
            Some(EventAction::Rename) => {
                (if e.paths.len() > 0 {
                    vanished(root, e.paths[0])
                } else {
                    seq![]
                }) + (if e.paths.len() > 1 {
                    appeared(root, e.paths[1])
                } else {
                    seq![]
                })
            },
            Some(action) => all_path_actions(action, root, e.paths),
        }
    }
}

fn note_relative(vault_root: &[u8], abs: &[u8]) -> (r: Option<String>)
    ensures
        text::opt_view(r) == note_at(vault_root@, abs@),
{
    if !paths::is_markdown(abs) {
        return None;
    }
    paths::relative(vault_root, abs)
}

fn tree_relative(vault_root: &[u8], abs: &[u8]) -> (r: Option<String>)
    ensures
        text::opt_view(r) == tree_at(vault_root@, abs@),
{
    match paths::relative(vault_root, abs) {
        Some(rel) => if rel.as_str().is_empty() {
            None
        } else {
            Some(rel)
        },
        None => None,
    }
}

fn push_modified(out: &mut Vec<WatchAction>, vault_root: &[u8], p: &EventPath)
    ensures
        actions_data(final(out)@) == actions_data(old(out)@) + modified(vault_root@, p@),
{
    match note_relative(vault_root, p.path.as_slice()) {
        Some(rel) => out.push(WatchAction::Upsert(rel)),
        None => {},
    }
    assert(actions_data(out@) =~= actions_data(old(out)@) + modified(vault_root@, p@));
}

fn push_appeared(out: &mut Vec<WatchAction>, vault_root: &[u8], p: &EventPath)
    ensures
        actions_data(final(out)@) == actions_data(old(out)@) + appeared(vault_root@, p@),
{
    if p.is_dir {
        match tree_relative(vault_root, p.path.as_slice()) {
            Some(rel) => out.push(WatchAction::UpsertTree(rel)),
            None => {},
        }
    } else {
        match note_relative(vault_root, p.path.as_slice()) {
            Some(rel) => out.push(WatchAction::Upsert(rel)),
            None => {},
        }
    }
    assert(actions_data(out@) =~= actions_data(old(out)@) + appeared(vault_root@, p@));
}

fn push_vanished(out: &mut Vec<WatchAction>, vault_root: &[u8], p: &EventPath)
    ensures
        actions_data(final(out)@) == actions_data(old(out)@) + vanished(vault_root@, p@),
{
    match note_relative(vault_root, p.path.as_slice()) {
        Some(rel) => out.push(WatchAction::Delete(rel)),
        None => {},
    }
    match tree_relative(vault_root, p.path.as_slice()) {
        Some(rel) => out.push(WatchAction::DeleteTree(rel)),
        None => {},
    }
    assert(actions_data(out@) =~= actions_data(old(out)@) + vanished(vault_root@, p@));
}

fn push_path_actions(
    out: &mut Vec<WatchAction>,
    action: EventAction,
    vault_root: &[u8],
    p: &EventPath,
)
    ensures
        actions_data(final(out)@) == actions_data(old(out)@) + path_actions(
            action,
            vault_root@,
            p@,
        ),
{
    match action {
        EventAction::Modify => push_modified(out, vault_root, p),
        EventAction::Appear => push_appeared(out, vault_root, p),
        EventAction::Vanish => push_vanished(out, vault_root, p),
        _ => {
            if p.exists {
                push_appeared(out, vault_root, p)
            } else {
                push_vanished(out, vault_root, p)
            }
        },
    }
}

/// Whether events were lost, so that only a new walk can tell what changed.
pub fn is_overflow(event: &Event) -> (r: bool)
    ensures
        r == event@.rescan,
{
    event.rescan
}

/// What to do for an event. Paths outside the vault, paths under a dot-prefixed
/// name and files that are no notes are dropped here.
pub fn map_event(event: &Event, vault_root: &[u8]) -> (r: Vec<WatchAction>)
    ensures
        actions_data(r@) == event_actions(event@, vault_root@),
{
    let mut out: Vec<WatchAction> = Vec::new();
    assert(actions_data(out@) =~= seq![]);
    if is_overflow(event) {
        return out;
    }
    let ghost ps = event_paths(event.paths@);
    match classify(event.kind) {
        None => {},
        Some(EventAction::Rename) => {
            if event.paths.len() > 0 {
                push_vanished(&mut out, vault_root, &event.paths[0]);
            }
            if event.paths.len() > 1 {
                push_appeared(&mut out, vault_root, &event.paths[1]);
            }
            assert(actions_data(out@) =~= event_actions(event@, vault_root@));
        },
        Some(action) => {
            let mut i: usize = 0;
            assert(actions_data(out@) =~= all_path_actions(action, vault_root@, ps.take(0)));
            while i < event.paths.len()
                invariant
                    i <= event.paths@.len(),
                    ps == event_paths(event.paths@),
                    actions_data(out@) == all_path_actions(
                        action,
                        vault_root@,
                        ps.take(i as int),
                    ),
                decreases event.paths@.len() - i,
            {
                push_path_actions(&mut out, action, vault_root, &event.paths[i]);
                proof {
                    assert(ps.take(i + 1).drop_last() =~= ps.take(i as int));
                    assert(ps.take(i + 1).last() == event.paths@[i as int]@);
                }
                i += 1;
            }
            assert(ps.take(i as int) =~= ps);
        },
    }
    out
}

/// One window of changes, with at most one action for each path.
#[derive(Debug, PartialEq, Eq)]
pub struct WatchBatch {
    pub upserts: Vec<String>,
    pub deletes: Vec<String>,
    /// Directories to walk for notes.
    pub upsert_trees: Vec<String>,
    /// Directories whose notes are all gone.
    pub delete_trees: Vec<String>,
}

/// What a [`WatchBatch`] says.
#[verifier::ext_equal]
pub struct WindowData {
    pub upserts: Seq<Seq<char>>,
    pub deletes: Seq<Seq<char>>,
    pub upsert_trees: Seq<Seq<char>>,
    pub delete_trees: Seq<Seq<char>>,
}

impl View for WatchBatch {
    type V = WindowData;

    open spec fn view(&self) -> WindowData {
        WindowData {
            upserts: text::views(self.upserts@),
            deletes: text::views(self.deletes@),
            upsert_trees: text::views(self.upsert_trees@),
            delete_trees: text::views(self.delete_trees@),
        }
    }
}

impl Default for WatchBatch {
    fn default() -> (r: Self)
        ensures
            r@ == (WindowData {
                upserts: seq![],
                deletes: seq![],
                upsert_trees: seq![],
                delete_trees: seq![],
            }),
    {
        let r = WatchBatch {
            upserts: Vec::new(),
            deletes: Vec::new(),
            upsert_trees: Vec::new(),
            delete_trees: Vec::new(),
        };
        assert(r@.upserts =~= seq![] && r@.deletes =~= seq![] && r@.upsert_trees =~= seq![]
            && r@.delete_trees =~= seq![]);
        r
    }
}

/// The last action for each note: true for reading it, false for dropping it.
pub open spec fn note_actions(actions: Seq<ActionData>) -> Map<Seq<char>, bool>
    decreases actions.len(),
{
    if actions.len() == 0 {
        Map::empty()
    } else {
        let before = note_actions(actions.drop_last());
        match actions.last() {
            ActionData::Upsert(p) => before.insert(p, true),
            ActionData::Delete(p) => before.insert(p, false),
            _ => before,
        }
    }
}

/// The last action for each directory: true for walking it, false for dropping
/// its notes.
pub open spec fn tree_actions(actions: Seq<ActionData>) -> Map<Seq<char>, bool>
    decreases actions.len(),
{
    if actions.len() == 0 {
        Map::empty()
    } else {
        let before = tree_actions(actions.drop_last());
        match actions.last() {
            ActionData::UpsertTree(p) => before.insert(p, true),
            ActionData::DeleteTree(p) => before.insert(p, false),
            _ => before,
        }
    }
}

/// Whether the last action for a path is `which`.
pub open spec fn ends_as(last: Map<Seq<char>, bool>, which: bool) -> spec_fn(Seq<char>) -> bool {
    |p: Seq<char>| last[p] == which
}

/// The paths whose last action is `which`, in ascending order.
pub open spec fn ending_as(last: Map<Seq<char>, bool>, which: bool) -> Seq<Seq<char>> {
    sorted::ascending(last.dom()).filter(ends_as(last, which))
}

/// What the actions of one window come to: the last action for each note and
/// for each directory.
pub open spec fn coalesced(actions: Seq<ActionData>) -> WindowData {
    WindowData {
        upserts: ending_as(note_actions(actions), true),
        deletes: ending_as(note_actions(actions), false),
        upsert_trees: ending_as(tree_actions(actions), true),
        delete_trees: ending_as(tree_actions(actions), false),
    }
}

fn paths_ending_as(last: &SortedMap<bool>, which: bool) -> (r: Vec<String>)
    ensures
        text::views(r@) == ending_as(last@, which),
{
    let n: usize = last.len();
    let ghost keys = sorted::ascending(last@.dom());
    let ghost pred = ends_as(last@, which);
    let mut out: Vec<String> = Vec::new();
    let mut i: usize = 0;
    proof {
        reveal(Seq::filter);
        assert(text::views(out@) =~= keys.take(0).filter(pred));
    }
    while i < n
        invariant
            i <= n == keys.len(),
            keys == sorted::ascending(last@.dom()),
            pred == ends_as(last@, which),
            text::views(out@) == keys.take(i as int).filter(pred),
        decreases n - i,
    {
        let ghost before = text::views(out@);
        proof {
            reveal(Seq::filter);
            assert(keys.take(i + 1).drop_last() =~= keys.take(i as int));
            assert(keys.take(i + 1).last() == keys[i as int]);
        }
        if *last.value_at(i) == which {
            out.push(last.key_at(i).clone());
            assert(text::views(out@) =~= before.push(keys[i as int]));
        }
        i += 1;
    }
    assert(keys.take(n as int) =~= keys);
    out
}

/// Brings the actions of one window down to one for each note and one for each
/// directory: the last one. Notes and directories are kept apart, since an
/// action for a directory covers notes that no action names. Each list is in
/// ascending order.
pub fn coalesce(actions: Vec<WatchAction>) -> (r: WatchBatch)
    ensures
        r@ == coalesced(actions_data(actions@)),
{
    let ghost all = actions_data(actions@);
    let mut notes: SortedMap<bool> = SortedMap::new();
    let mut trees: SortedMap<bool> = SortedMap::new();
    let mut rest = lists::reversed(actions);
    let ghost mut i: int = 0;
    proof {
        assert(notes@ =~= note_actions(all.take(0)));
        assert(trees@ =~= tree_actions(all.take(0)));
    }
    while rest.len() > 0
        invariant
            0 <= i == all.len() - rest@.len(),
            forall|j: int| 0 <= j < rest@.len() ==> (#[trigger] rest@[j])@ == all[all.len() - 1 - j],
            notes@ == note_actions(all.take(i)),
            trees@ == tree_actions(all.take(i)),
        decreases rest@.len(),
    {
        proof {
            assert(all.take(i + 1).drop_last() =~= all.take(i));
        }
        match rest.pop() {
            Some(action) => {
                proof {
                    assert(all.take(i + 1).last() == action@);
                    i = i + 1;
                }
                match action {
                    WatchAction::Upsert(p) => notes.insert(p, true),
                    WatchAction::Delete(p) => notes.insert(p, false),
                    WatchAction::UpsertTree(p) => trees.insert(p, true),
                    WatchAction::DeleteTree(p) => trees.insert(p, false),
                }
            },
            None => {},
        }
    }
    assert(all.take(i) =~= all);
    WatchBatch {
        upserts: paths_ending_as(&notes, true),
        deletes: paths_ending_as(&notes, false),
        upsert_trees: paths_ending_as(&trees, true),
        delete_trees: paths_ending_as(&trees, false),
    }
}

/// The absolute path of a vault-relative one, for reading it again.
pub fn absolute_path(vault_root: &[u8], rel: &str) -> (r: Vec<u8>)
    ensures
        r@ == paths::joined(vault_root@, encode_utf8(rel@)),
{
    paths::join(vault_root, rel.as_bytes())
}

/// How long a window still takes events in, given when it was opened, the time
/// now and how long it is open, all in one unit: not at all once it has been
/// open that long.
pub fn window_left(opened: u128, now: u128, window: u128) -> (r: Option<u128>)
    requires
        opened + window <= u128::MAX,
    ensures
        r is None <==> now >= opened + window,
        r matches Some(left) ==> left == opened + window - now,
{
    let closes: u128 = opened + window;
    if now >= closes {
        None
    } else {
        Some(closes - now)
    }
}

/// What came of one native event: the event, or what the backend's error says.
pub type EventOutcome = Result<Event, String>;

/// The events of a window, without the errors.
pub open spec fn events_data(v: Seq<EventOutcome>) -> Seq<EventData>
    decreases v.len(),
{
    if v.len() == 0 {
        seq![]
    } else {
        match v.last() {
            Ok(e) => events_data(v.drop_last()).push(e@),
            Err(_) => events_data(v.drop_last()),
        }
    }
}

/// What to do for the events of a window, one after the other.
pub open spec fn window_actions(events: Seq<EventData>, root: Seq<u8>) -> Seq<ActionData>
    decreases events.len(),
{
    if events.len() == 0 {
        seq![]
    } else {
        window_actions(events.drop_last(), root) + event_actions(events.last(), root)
    }
}

/// Whether events of a window were lost.
pub open spec fn overflowed(events: Seq<EventData>) -> bool {
    exists|i: int| 0 <= i < events.len() && (#[trigger] events[i]).rescan
}

/// Whether a window changes nothing.
pub open spec fn idle(w: WindowData) -> bool {
    w.upserts.len() == 0 && w.deletes.len() == 0 && w.upsert_trees.len() == 0
        && w.delete_trees.len() == 0
}

/// What a window asks for: a new walk through the vault, changes to the notes,
/// both or neither.
#[derive(Debug)]
pub struct Window {
    pub rescan: bool,
    pub batch: Option<WatchBatch>,
}

/// Takes the events of one window together. A new walk is asked for if events
/// were lost; the changes that the other events say are made either way.
pub fn close_window(vault_root: &[u8], events: &Vec<EventOutcome>) -> (r: Window)
    ensures
        ({
            let seen = events_data(events@);
            let changes = coalesced(window_actions(seen, vault_root@));
            &&& r.rescan == overflowed(seen)
            &&& match r.batch {
                Some(batch) => !idle(changes) && batch@ == changes,
                None => idle(changes),
            }
        }),
{
    let mut rescan = false;
    let mut actions: Vec<WatchAction> = Vec::new();
    let mut i: usize = 0;
    proof {
        assert(actions_data(actions@) =~= window_actions(
            events_data(events@.take(0)),
            vault_root@,
        ));
    }
    while i < events.len()
        invariant
            i <= events@.len(),
            rescan == overflowed(events_data(events@.take(i as int))),
            actions_data(actions@) == window_actions(
                events_data(events@.take(i as int)),
                vault_root@,
            ),
        decreases events@.len() - i,
    {
        let ghost prev = events@.take(i as int);
        let ghost next = events@.take(i + 1);
        let ghost before = actions@;
        proof {
            assert(next.drop_last() =~= prev);
            assert(next.last() == events@[i as int]);
        }
        match &events[i] {
            Ok(event) => {
                if is_overflow(event) {
                    rescan = true;
                }
                let mut more = map_event(event, vault_root);
                let ghost added = actions_data(more@);
                actions.append(&mut more);
                proof {
                    let seen = events_data(prev);
                    let now = events_data(next);
                    assert(now == seen.push(event@));
                    assert(now.drop_last() =~= seen);
                    assert(actions_data(actions@) =~= actions_data(before) + added);
                    overflow_grows(seen, event@);
                }
            },
            Err(_) => {},
        }
        i += 1;
    }
    assert(events@.take(i as int) =~= events@);
    let batch = coalesce(actions);
    if batch.upserts.len() == 0 && batch.deletes.len() == 0 && batch.upsert_trees.len() == 0
        && batch.delete_trees.len() == 0 {
        Window { rescan, batch: None }
    } else {
        Window { rescan, batch: Some(batch) }
    }
}

proof fn overflow_grows(events: Seq<EventData>, e: EventData)
    ensures
        overflowed(events.push(e)) <==> overflowed(events) || e.rescan,
{
    let all = events.push(e);
    if overflowed(events) {
        let i = choose|i: int| 0 <= i < events.len() && (#[trigger] events[i]).rescan;
        assert(all[i].rescan);
    }
    if e.rescan {
        assert(all[events.len() as int].rescan);
    }
    if overflowed(all) {
        let i = choose|i: int| 0 <= i < all.len() && (#[trigger] all[i]).rescan;
        if i < events.len() {
            assert(events[i].rescan);
        }
    }
}

/// A note of a batch, and what came of reading it.
#[derive(Debug)]
pub struct ReadUpsert {
    pub path: String,
    pub read: FileOutcome,
}

/// A directory of a batch, and the walk through it.
#[derive(Debug)]
pub struct WalkedTree {
    pub dir: String,
    pub walk: Vec<WalkItem>,
}

/// A batch whose notes were read and whose directories were walked.
#[derive(Debug)]
pub struct ReadBatch {
    pub upserts: Vec<ReadUpsert>,
    pub deletes: Vec<String>,
    pub upsert_trees: Vec<WalkedTree>,
    pub delete_trees: Vec<String>,
}

/// What a [`ReadUpsert`] says.
#[verifier::ext_equal]
pub struct ReadData {
    pub path: Seq<char>,
    pub read: OutcomeData,
}

/// What a [`WalkedTree`] says.
#[verifier::ext_equal]
pub struct TreeData {
    pub dir: Seq<char>,
    pub walk: Seq<WalkData>,
}

/// What a list of notes that were read says.
pub open spec fn reads_data(v: Seq<ReadUpsert>) -> Seq<ReadData> {
    v.map_values(|u: ReadUpsert| ReadData { path: u.path@, read: vault::outcome_data(u.read) })
}

/// What a list of directories that were walked says.
pub open spec fn trees_data(v: Seq<WalkedTree>) -> Seq<TreeData> {
    v.map_values(|t: WalkedTree| TreeData { dir: t.dir@, walk: vault::walk_data(t.walk@) })
}

/// What came of a note that was read.
pub open spec fn read_note(root: Seq<u8>, u: ReadData) -> vault::NoteOutcome {
    vault::note_of(root, paths::joined(root, encode_utf8(u.path)), u.read)
}

/// The notes among those that were read.
pub open spec fn notes_read(root: Seq<u8>, reads: Seq<ReadData>) -> Seq<NoteData>
    decreases reads.len(),
{
    if reads.len() == 0 {
        seq![]
    } else {
        let before = notes_read(root, reads.drop_last());
        match read_note(root, reads.last()) {
            Ok((note, _)) => before.push(note),
            Err(_) => before,
        }
    }
}

/// The paths among those that were read whose files are no longer there.
pub open spec fn paths_gone(root: Seq<u8>, reads: Seq<ReadData>) -> Seq<Seq<char>>
    decreases reads.len(),
{
    if reads.len() == 0 {
        seq![]
    } else {
        let before = paths_gone(root, reads.drop_last());
        match read_note(root, reads.last()) {
            Err(kind) => if is_gone(kind) {
                before.push(reads.last().path)
            } else {
                before
            },
            Ok(_) => before,
        }
    }
}

/// Whether a failure says that the file is no longer there.
pub open spec fn is_gone(kind: IssueKindData) -> bool {
    kind matches IssueKindData::Io { message, not_found } && not_found
}

/// The files among those that were read that are there and give no note.
pub open spec fn reads_failed(root: Seq<u8>, reads: Seq<ReadData>) -> Seq<IssueData>
    decreases reads.len(),
{
    if reads.len() == 0 {
        seq![]
    } else {
        let before = reads_failed(root, reads.drop_last());
        match read_note(root, reads.last()) {
            Err(kind) => if is_gone(kind) {
                before
            } else {
                before.push(
                    IssueData {
                        path: paths::joined(root, encode_utf8(reads.last().path)),
                        kind,
                    },
                )
            },
            Ok(_) => before,
        }
    }
}

/// The issues met in directories that were walked.
pub open spec fn issues_walked(root: Seq<u8>, trees: Seq<TreeData>) -> Seq<IssueData>
    decreases trees.len(),
{
    if trees.len() == 0 {
        seq![]
    } else {
        issues_walked(root, trees.drop_last()) + vault::scanned(root, trees.last().walk).issues
    }
}

/// The notes found in directories that were walked.
pub open spec fn notes_walked(root: Seq<u8>, trees: Seq<TreeData>) -> Seq<NoteData>
    decreases trees.len(),
{
    if trees.len() == 0 {
        seq![]
    } else {
        notes_walked(root, trees.drop_last()) + vault::scanned(root, trees.last().walk).notes
    }
}

/// The directories that were walked.
pub open spec fn dirs_of(trees: Seq<TreeData>) -> Seq<Seq<char>> {
    trees.map_values(|t: TreeData| t.dir)
}

/// The changes that a batch that was read makes to the notes. A note that is no
/// longer there is dropped. A directory that was walked first loses the notes
/// it had, so that what is held of it afterwards is what the walk found.
pub open spec fn index_batch(
    root: Seq<u8>,
    reads: Seq<ReadData>,
    deletes: Seq<Seq<char>>,
    trees: Seq<TreeData>,
    delete_trees: Seq<Seq<char>>,
) -> BatchData {
    BatchData {
        upserts: notes_read(root, reads) + notes_walked(root, trees),
        deletes: deletes + paths_gone(root, reads),
        delete_prefixes: delete_trees + dirs_of(trees),
    }
}

/// The changes that a batch makes, and the files that were passed over.
#[derive(Debug)]
pub struct AuditedBatch {
    pub batch: IndexBatch,
    /// Files that were read again, are there, and give no note.
    pub failed: Vec<ScanIssue>,
    /// What was met in the directories that were walked.
    pub walked: Vec<ScanIssue>,
}

/// Turns a batch that was read into the changes that it makes to the notes.
/// Files that are there and cannot be turned into notes change nothing, and are
/// named beside the changes.
pub fn build_index_batch_audit(vault_root: &[u8], batch: ReadBatch) -> (r: AuditedBatch)
    ensures
        r.batch@ == index_batch(
            vault_root@,
            reads_data(batch.upserts@),
            text::views(batch.deletes@),
            trees_data(batch.upsert_trees@),
            text::views(batch.delete_trees@),
        ),
        vault::issues_data(r.failed@) == reads_failed(vault_root@, reads_data(batch.upserts@)),
        vault::issues_data(r.walked@) == issues_walked(
            vault_root@,
            trees_data(batch.upsert_trees@),
        ),
{
    let ghost reads = reads_data(batch.upserts@);
    let ghost trees = trees_data(batch.upsert_trees@);
    let ghost dropped = text::views(batch.deletes@);
    let ghost gone_dirs = text::views(batch.delete_trees@);
    let mut upserts: Vec<Note> = Vec::new();
    let mut failed: Vec<ScanIssue> = Vec::new();
    let mut issues: Vec<ScanIssue> = Vec::new();
    let mut deletes = batch.deletes;
    let mut delete_prefixes = batch.delete_trees;
    let mut rest = lists::reversed(batch.upserts);
    let ghost mut i: int = 0;
    proof {
        assert(vault::notes_data(upserts@) =~= notes_read(vault_root@, reads.take(0)));
        assert(text::views(deletes@) =~= dropped + paths_gone(vault_root@, reads.take(0)));
        assert(vault::issues_data(failed@) =~= reads_failed(vault_root@, reads.take(0)));
    }
    while rest.len() > 0
        invariant
            0 <= i == reads.len() - rest@.len(),
            forall|j: int|
                0 <= j < rest@.len() ==> reads[reads.len() - 1 - j] == (ReadData {
                    path: (#[trigger] rest@[j]).path@,
                    read: vault::outcome_data(rest@[j].read),
                }),
            vault::notes_data(upserts@) == notes_read(vault_root@, reads.take(i)),
            text::views(deletes@) == dropped + paths_gone(vault_root@, reads.take(i)),
            vault::issues_data(failed@) == reads_failed(vault_root@, reads.take(i)),
        decreases rest@.len(),
    {
        let ghost prev = reads.take(i);
        let ghost next = reads.take(i + 1);
        let ghost before_up = vault::notes_data(upserts@);
        let ghost before_del = text::views(deletes@);
        let ghost before_failed = vault::issues_data(failed@);
        proof {
            assert(next.drop_last() =~= prev);
        }
        match rest.pop() {
            Some(u) => {
                let ghost d = ReadData { path: u.path@, read: vault::outcome_data(u.read) };
                proof {
                    assert(next.last() == d);
                    i = i + 1;
                }
                let abs = absolute_path(vault_root, u.path.as_str());
                match vault::scan_one(vault_root, abs.as_slice(), u.read) {
                    Ok(note) => {
                        upserts.push(note);
                        assert(vault::notes_data(upserts@) =~= before_up.push(note@));
                    },
                    Err(kind) => {
                        let gone = match &kind {
                            ScanIssueKind::Io { message: _, not_found } => *not_found,
                            _ => false,
                        };
                        let ghost said = kind@;
                        if gone {
                            deletes.push(u.path);
                            assert(text::views(deletes@) =~= before_del.push(u.path@));
                            assert(text::views(deletes@) =~= dropped + paths_gone(
                                vault_root@,
                                next,
                            ));
                        } else {
                            let ghost path = abs@;
                            failed.push(ScanIssue { path: abs, kind });
                            assert(vault::issues_data(failed@) =~= before_failed.push(
                                IssueData { path, kind: said },
                            ));
                        }
                    },
                }
            },
            None => {},
        }
    }
    proof {
        assert(reads.take(i) =~= reads);
    }
    let mut walked = lists::reversed(batch.upsert_trees);
    let ghost mut k: int = 0;
    let ghost base_up = vault::notes_data(upserts@);
    proof {
        assert(base_up =~= base_up + notes_walked(vault_root@, trees.take(0)));
        assert(text::views(delete_prefixes@) =~= gone_dirs + dirs_of(trees.take(0)));
        assert(vault::issues_data(issues@) =~= issues_walked(vault_root@, trees.take(0)));
    }
    while walked.len() > 0
        invariant
            0 <= k == trees.len() - walked@.len(),
            forall|j: int|
                0 <= j < walked@.len() ==> trees[trees.len() - 1 - j] == (TreeData {
                    dir: (#[trigger] walked@[j]).dir@,
                    walk: vault::walk_data(walked@[j].walk@),
                }),
            vault::notes_data(upserts@) == base_up + notes_walked(vault_root@, trees.take(k)),
            text::views(delete_prefixes@) == gone_dirs + dirs_of(trees.take(k)),
            vault::issues_data(issues@) == issues_walked(vault_root@, trees.take(k)),
        decreases walked@.len(),
    {
        let ghost prev = trees.take(k);
        let ghost next = trees.take(k + 1);
        let ghost before_up = vault::notes_data(upserts@);
        let ghost before_dirs = text::views(delete_prefixes@);
        let ghost before_issues = vault::issues_data(issues@);
        proof {
            assert(next.drop_last() =~= prev);
        }
        match walked.pop() {
            Some(t) => {
                let ghost d = TreeData { dir: t.dir@, walk: vault::walk_data(t.walk@) };
                proof {
                    assert(next.last() == d);
                    k = k + 1;
                }
                let mut found = vault::scan_from(vault_root, t.walk);
                let ghost more = vault::notes_data(found.notes@);
                let ghost met = vault::issues_data(found.issues@);
                upserts.append(&mut found.notes);
                issues.append(&mut found.issues);
                delete_prefixes.push(t.dir);
                proof {
                    assert(vault::notes_data(upserts@) =~= before_up + more);
                    assert(before_up + more =~= base_up + notes_walked(vault_root@, next));
                    assert(vault::issues_data(issues@) =~= before_issues + met);
                    assert(text::views(delete_prefixes@) =~= before_dirs.push(t.dir@));
                    assert(dirs_of(next) =~= dirs_of(prev).push(t.dir@));
                    assert(text::views(delete_prefixes@) =~= gone_dirs + dirs_of(next));
                }
            },
            None => {},
        }
    }
    proof {
        assert(trees.take(k) =~= trees);
    }
    AuditedBatch {
        batch: IndexBatch { upserts, deletes, delete_prefixes },
        failed,
        walked: issues,
    }
}

/// Turns a batch that was read into the changes that it makes to the notes.
/// Files that are there and cannot be turned into notes change nothing.
pub fn build_index_batch(vault_root: &[u8], batch: ReadBatch) -> (r: IndexBatch)
    ensures
        r@ == index_batch(
            vault_root@,
            reads_data(batch.upserts@),
            text::views(batch.deletes@),
            trees_data(batch.upsert_trees@),
            text::views(batch.delete_trees@),
        ),
{
    build_index_batch_audit(vault_root, batch).batch
}

// -- laws -------------------------------------------------------------------

/// The last action for a note wins: whatever came before it, a note whose last
/// action is to read it is read, and one whose last action is to drop it is
/// dropped.
pub proof fn last_note_action_wins(actions: Seq<ActionData>, p: Seq<char>)
    ensures
        note_actions(actions.push(ActionData::Upsert(p))) == note_actions(actions).insert(p, true),
        note_actions(actions.push(ActionData::Delete(p))) == note_actions(actions).insert(p, false),
        note_actions(actions.push(ActionData::UpsertTree(p))) == note_actions(actions),
        note_actions(actions.push(ActionData::DeleteTree(p))) == note_actions(actions),
{
    assert(actions.push(ActionData::Upsert(p)).drop_last() =~= actions);
    assert(actions.push(ActionData::Delete(p)).drop_last() =~= actions);
    assert(actions.push(ActionData::UpsertTree(p)).drop_last() =~= actions);
    assert(actions.push(ActionData::DeleteTree(p)).drop_last() =~= actions);
}

/// The last action for a directory wins.
pub proof fn last_tree_action_wins(actions: Seq<ActionData>, p: Seq<char>)
    ensures
        tree_actions(actions.push(ActionData::UpsertTree(p))) == tree_actions(actions).insert(
            p,
            true,
        ),
        tree_actions(actions.push(ActionData::DeleteTree(p))) == tree_actions(actions).insert(
            p,
            false,
        ),
        tree_actions(actions.push(ActionData::Upsert(p))) == tree_actions(actions),
        tree_actions(actions.push(ActionData::Delete(p))) == tree_actions(actions),
{
    assert(actions.push(ActionData::Upsert(p)).drop_last() =~= actions);
    assert(actions.push(ActionData::Delete(p)).drop_last() =~= actions);
    assert(actions.push(ActionData::UpsertTree(p)).drop_last() =~= actions);
    assert(actions.push(ActionData::DeleteTree(p)).drop_last() =~= actions);
}

proof fn note_actions_are_finite(actions: Seq<ActionData>)
    ensures
        note_actions(actions).dom().finite(),
        tree_actions(actions).dom().finite(),
    decreases actions.len(),
{
    if actions.len() > 0 {
        note_actions_are_finite(actions.drop_last());
    }
}

/// A batch names each path at most once for reading or dropping, and each of
/// its lists is in ascending order: a note is in the one list or the other,
/// according to its last action.
pub proof fn batch_names_each_path_once(actions: Seq<ActionData>, p: Seq<char>)
    ensures
        sorted::strictly_ascending(coalesced(actions).upserts),
        sorted::strictly_ascending(coalesced(actions).deletes),
        coalesced(actions).upserts.contains(p) <==> note_actions(actions).contains_key(p)
            && note_actions(actions)[p],
        coalesced(actions).deletes.contains(p) <==> note_actions(actions).contains_key(p)
            && !note_actions(actions)[p],
        !(coalesced(actions).upserts.contains(p) && coalesced(actions).deletes.contains(p)),
        sorted::strictly_ascending(coalesced(actions).upsert_trees),
        sorted::strictly_ascending(coalesced(actions).delete_trees),
        coalesced(actions).upsert_trees.contains(p) <==> tree_actions(actions).contains_key(p)
            && tree_actions(actions)[p],
        coalesced(actions).delete_trees.contains(p) <==> tree_actions(actions).contains_key(p)
            && !tree_actions(actions)[p],
{
    note_actions_are_finite(actions);
    listed_by_last(note_actions(actions), true, p);
    listed_by_last(note_actions(actions), false, p);
    listed_by_last(tree_actions(actions), true, p);
    listed_by_last(tree_actions(actions), false, p);
}

proof fn listed_by_last(last: Map<Seq<char>, bool>, which: bool, p: Seq<char>)
    requires
        last.dom().finite(),
    ensures
        sorted::strictly_ascending(ending_as(last, which)),
        ending_as(last, which).contains(p) <==> last.contains_key(p) && last[p] == which,
{
    let keys = sorted::ascending(last.dom());
    sorted::finite_sets_are_listed(last.dom());
    sorted::filter_ascends(keys, ends_as(last, which));
    sorted::filter_contains(keys, ends_as(last, which), p);
    assert(last.dom().contains(p) <==> keys.contains(p));
}

/// A path that is gone gives a note to drop only together with a directory of
/// the same name.
pub proof fn vanished_note_drops_its_tree(root: Seq<u8>, p: PathData)
    requires
        note_at(root, p.path) is Some,
        note_at(root, p.path)->0.len() > 0,
    ensures
        vanished(root, p) == seq![
            ActionData::Delete(note_at(root, p.path)->0),
            ActionData::DeleteTree(note_at(root, p.path)->0),
        ],
{
    assert(vanished(root, p) =~= seq![
        ActionData::Delete(note_at(root, p.path)->0),
        ActionData::DeleteTree(note_at(root, p.path)->0),
    ]);
}

/// A note that is read again for an event is kept under the path that the
/// event names, so that what later drops that path drops the note. A file with
/// a backslash in its path is left out: its note's path has a slash there, and
/// may be that of another file.
pub proof fn reread_note_keeps_its_path(root: Seq<u8>, p: Seq<u8>, read: OutcomeData)
    requires
        note_at(root, p) is Some,
        !decode_utf8(paths::stripped(p, root)->0).contains('\\'),
    ensures
        vault::note_path(root, paths::joined(root, encode_utf8(note_at(root, p)->0))) == note_at(
            root,
            p,
        ),
        vault::note_of(
            root,
            paths::joined(root, encode_utf8(note_at(root, p)->0)),
            read,
        ) matches Ok((note, _)) ==> note.path == note_at(root, p)->0,
{
    let rel = paths::stripped(p, root)->0;
    let path = decode_utf8(rel);
    assert(text::replaced(path, '\\', '/') =~= path) by {
        assert forall|i: int| 0 <= i < path.len() implies path[i] != '\\' by {
            assert(path.contains(path[i]));
        }
    }
    decode_utf8_encode_utf8(rel);
    if rel.len() > 0 {
        paths::relative_leads_back(root, p);
    } else {
        paths::root_leads_back(root);
    }
}

/// A path that is made absolute is told back as it was: as a directory, and as
/// a note if it has a Markdown name.
pub proof fn absolute_path_is_told_back(root: Seq<u8>, rel: Seq<char>)
    requires
        names::plain_text(rel),
    ensures
        tree_at(root, paths::joined(root, encode_utf8(rel))) == Some(rel),
        note_at(root, paths::joined(root, encode_utf8(rel))) == if paths::is_markdown_path(
            paths::joined(root, encode_utf8(rel)),
        ) {
            Some(rel)
        } else {
            None
        },
{
    names::absolute_path_leads_back(root, rel);
}

/// Every directory that a batch walks loses the notes it had first.
pub proof fn walked_tree_is_dropped_first(
    root: Seq<u8>,
    reads: Seq<ReadData>,
    deletes: Seq<Seq<char>>,
    trees: Seq<TreeData>,
    delete_trees: Seq<Seq<char>>,
    i: int,
)
    requires
        0 <= i < trees.len(),
    ensures
        index_batch(root, reads, deletes, trees, delete_trees).delete_prefixes.contains(
            trees[i].dir,
        ),
{
    let all = delete_trees + dirs_of(trees);
    assert(all[delete_trees.len() + i] == trees[i].dir);
}

proof fn actions_of_each(
    action: EventAction,
    root: Seq<u8>,
    ps: Seq<PathData>,
    i: int,
    a: ActionData,
)
    requires
        0 <= i < ps.len(),
        path_actions(action, root, ps[i]).contains(a),
    ensures
        all_path_actions(action, root, ps).contains(a),
    decreases ps.len(),
{
    let before = all_path_actions(action, root, ps.drop_last());
    let own = path_actions(action, root, ps.last());
    let all = before + own;
    if i == ps.len() - 1 {
        assert(all[before.len() + own.index_of(a)] == a);
    } else {
        assert(ps.drop_last()[i] == ps[i]);
        actions_of_each(action, root, ps.drop_last(), i, a);
        assert(all[before.index_of(a)] == a);
    }
}

/// A directory that came to be there is walked: one that was created or renamed
/// into place, and one that is there after a rename that does not say which
/// side it is.
pub proof fn directories_that_appear_are_walked(
    e: EventData,
    root: Seq<u8>,
    i: int,
    rel: Seq<char>,
)
    requires
        !e.rescan,
        0 <= i < e.paths.len(),
        e.kind == EventKind::Create || e.kind == EventKind::Modify(ModifyKind::Name(RenameMode::To))
            || e.kind == EventKind::Modify(ModifyKind::Name(RenameMode::Any)) || e.kind
            == EventKind::Modify(ModifyKind::Name(RenameMode::Other)),
        e.paths[i].exists,
        e.paths[i].is_dir,
        paths::relative_text(root, e.paths[i].path) == Some(rel),
        rel.len() > 0,
    ensures
        event_actions(e, root).contains(ActionData::UpsertTree(rel)),
{
    let a = ActionData::UpsertTree(rel);
    let action = meaning(e.kind)->0;
    assert(path_actions(action, root, e.paths[i])[0] == a);
    actions_of_each(action, root, e.paths, i, a);
}

/// A note that came to be there is read.
pub proof fn notes_that_appear_are_read(e: EventData, root: Seq<u8>, i: int, rel: Seq<char>)
    requires
        !e.rescan,
        0 <= i < e.paths.len(),
        e.kind == EventKind::Create || e.kind == EventKind::Modify(ModifyKind::Name(RenameMode::To))
            || (e.paths[i].exists && (e.kind == EventKind::Modify(ModifyKind::Name(RenameMode::Any))
            || e.kind == EventKind::Modify(ModifyKind::Name(RenameMode::Other)))),
        !e.paths[i].is_dir,
        paths::is_markdown_path(e.paths[i].path),
        paths::relative_text(root, e.paths[i].path) == Some(rel),
    ensures
        event_actions(e, root).contains(ActionData::Upsert(rel)),
{
    let a = ActionData::Upsert(rel);
    let action = meaning(e.kind)->0;
    assert(path_actions(action, root, e.paths[i])[0] == a);
    actions_of_each(action, root, e.paths, i, a);
}

/// What is gone is dropped as a directory, and as a note too if it has a
/// Markdown name.
pub proof fn what_vanishes_is_dropped(e: EventData, root: Seq<u8>, i: int, rel: Seq<char>)
    requires
        !e.rescan,
        0 <= i < e.paths.len(),
        e.kind == EventKind::Remove || e.kind == EventKind::Modify(
            ModifyKind::Name(RenameMode::From),
        ) || (!e.paths[i].exists && (e.kind == EventKind::Modify(ModifyKind::Name(RenameMode::Any))
            || e.kind == EventKind::Modify(ModifyKind::Name(RenameMode::Other)))),
        paths::relative_text(root, e.paths[i].path) == Some(rel),
        rel.len() > 0,
    ensures
        event_actions(e, root).contains(ActionData::DeleteTree(rel)),
        paths::is_markdown_path(e.paths[i].path) ==> event_actions(e, root).contains(
            ActionData::Delete(rel),
        ),
{
    let action = meaning(e.kind)->0;
    let own = path_actions(action, root, e.paths[i]);
    assert(own.last() == ActionData::DeleteTree(rel));
    actions_of_each(action, root, e.paths, i, ActionData::DeleteTree(rel));
    if paths::is_markdown_path(e.paths[i].path) {
        assert(own[0] == ActionData::Delete(rel));
        actions_of_each(action, root, e.paths, i, ActionData::Delete(rel));
    }
}

/// A note with new contents is read, whether the event says that its data or
/// its metadata changed, leaves that open, or says that a file that was open
/// for writing was closed.
pub proof fn notes_with_new_contents_are_read(
    e: EventData,
    root: Seq<u8>,
    i: int,
    rel: Seq<char>,
)
    requires
        !e.rescan,
        0 <= i < e.paths.len(),
        e.kind == EventKind::Modify(ModifyKind::Data) || e.kind == EventKind::Modify(
            ModifyKind::Metadata,
        ) || e.kind == EventKind::Modify(ModifyKind::Any) || e.kind == EventKind::Access(
            AccessKind::Close(AccessMode::Write),
        ),
        paths::is_markdown_path(e.paths[i].path),
        paths::relative_text(root, e.paths[i].path) == Some(rel),
    ensures
        event_actions(e, root).contains(ActionData::Upsert(rel)),
{
    let a = ActionData::Upsert(rel);
    let action = meaning(e.kind)->0;
    assert(path_actions(action, root, e.paths[i])[0] == a);
    actions_of_each(action, root, e.paths, i, a);
}

/// An event that names one path, said of a kind, with no events lost.
pub open spec fn event_of(kind: EventKind, p: PathData) -> EventData {
    EventData { kind, rescan: false, paths: seq![p] }
}

/// An event that names one path asks for no more than that path needs: one
/// action, two for a note that is gone, and none for what is no note.
pub proof fn one_path_asks_for_no_more(root: Seq<u8>, p: PathData, rel: Seq<char>)
    requires
        paths::relative_text(root, p.path) == Some(rel),
        rel.len() > 0,
    ensures
        event_actions(event_of(EventKind::Create, p), root) == if p.is_dir {
            seq![ActionData::UpsertTree(rel)]
        } else if paths::is_markdown_path(p.path) {
            seq![ActionData::Upsert(rel)]
        } else {
            seq![]
        },
        event_actions(event_of(EventKind::Remove, p), root) == if paths::is_markdown_path(p.path) {
            seq![ActionData::Delete(rel), ActionData::DeleteTree(rel)]
        } else {
            seq![ActionData::DeleteTree(rel)]
        },
        event_actions(event_of(EventKind::Modify(ModifyKind::Data), p), root)
            == if paths::is_markdown_path(p.path) {
            seq![ActionData::Upsert(rel)]
        } else {
            seq![]
        },
{
    one_path_alone(EventAction::Appear, root, p);
    one_path_alone(EventAction::Vanish, root, p);
    one_path_alone(EventAction::Modify, root, p);
    assert(vanished(root, p) =~= if paths::is_markdown_path(p.path) {
        seq![ActionData::Delete(rel), ActionData::DeleteTree(rel)]
    } else {
        seq![ActionData::DeleteTree(rel)]
    });
}

proof fn one_path_alone(action: EventAction, root: Seq<u8>, p: PathData)
    ensures
        all_path_actions(action, root, seq![p]) == path_actions(action, root, p),
{
    assert(seq![p].drop_last() =~= seq![]);
    assert(all_path_actions(action, root, seq![]) =~= seq![]);
    assert(all_path_actions(action, root, seq![p]) =~= path_actions(action, root, p));
}

/// Kinds of events that say the same of a path ask for the same: a rename into
/// place is a creation and a rename away a removal; a rename that leaves its
/// side open is the one or the other according to whether the path is there.
pub proof fn kinds_that_say_the_same(root: Seq<u8>, p: PathData)
    ensures
        event_actions(event_of(EventKind::Modify(ModifyKind::Name(RenameMode::To)), p), root)
            == event_actions(event_of(EventKind::Create, p), root),
        event_actions(event_of(EventKind::Modify(ModifyKind::Name(RenameMode::From)), p), root)
            == event_actions(event_of(EventKind::Remove, p), root),
        event_actions(event_of(EventKind::Modify(ModifyKind::Name(RenameMode::Any)), p), root)
            == event_actions(
            event_of(
                if p.exists {
                    EventKind::Create
                } else {
                    EventKind::Remove
                },
                p,
            ),
            root,
        ),
        event_actions(event_of(EventKind::Modify(ModifyKind::Name(RenameMode::Other)), p), root)
            == event_actions(event_of(EventKind::Modify(ModifyKind::Name(RenameMode::Any)), p), root),
        event_actions(event_of(EventKind::Modify(ModifyKind::Metadata), p), root) == event_actions(
            event_of(EventKind::Modify(ModifyKind::Data), p),
            root,
        ),
        event_actions(event_of(EventKind::Modify(ModifyKind::Any), p), root) == event_actions(
            event_of(EventKind::Modify(ModifyKind::Data), p),
            root,
        ),
        event_actions(
            event_of(EventKind::Access(AccessKind::Close(AccessMode::Write)), p),
            root,
        ) == event_actions(event_of(EventKind::Modify(ModifyKind::Data), p), root),
{
    one_path_alone(EventAction::Appear, root, p);
    one_path_alone(EventAction::Vanish, root, p);
    one_path_alone(EventAction::Modify, root, p);
    one_path_alone(EventAction::RenameUnpaired, root, p);
}

/// A path that is not told in the vault asks for nothing, whatever happened to
/// it.
pub proof fn paths_elsewhere_ask_for_nothing(kind: EventKind, root: Seq<u8>, p: PathData)
    requires
        paths::relative_text(root, p.path) is None,
    ensures
        event_actions(event_of(kind, p), root) == Seq::<ActionData>::empty(),
{
    match meaning(kind) {
        Some(action) => {
            one_path_alone(action, root, p);
            assert(vanished(root, p) =~= seq![]);
        },
        None => {},
    }
    assert(event_actions(event_of(kind, p), root) =~= seq![]);
}

proof fn path_actions_add_up(
    action: EventAction,
    root: Seq<u8>,
    a: Seq<PathData>,
    b: Seq<PathData>,
)
    ensures
        all_path_actions(action, root, a + b) == all_path_actions(action, root, a)
            + all_path_actions(action, root, b),
    decreases b.len(),
{
    if b.len() == 0 {
        assert(a + b =~= a);
        assert(all_path_actions(action, root, a) + seq![] =~= all_path_actions(action, root, a));
    } else {
        assert((a + b).drop_last() =~= a + b.drop_last());
        path_actions_add_up(action, root, a, b.drop_last());
        assert(all_path_actions(action, root, a + b) =~= all_path_actions(action, root, a)
            + all_path_actions(action, root, b));
    }
}

/// An event that names several paths asks for what each asks for, one after the
/// other; a rename from the first path to the second is apart.
pub proof fn paths_of_an_event_add_up(
    kind: EventKind,
    root: Seq<u8>,
    a: Seq<PathData>,
    b: Seq<PathData>,
)
    requires
        kind != EventKind::Modify(ModifyKind::Name(RenameMode::Both)),
    ensures
        event_actions(EventData { kind, rescan: false, paths: a + b }, root) == event_actions(
            EventData { kind, rescan: false, paths: a },
            root,
        ) + event_actions(EventData { kind, rescan: false, paths: b }, root),
{
    match meaning(kind) {
        Some(action) => path_actions_add_up(action, root, a, b),
        None => {
            assert(Seq::<ActionData>::empty() + Seq::<ActionData>::empty() =~= seq![]);
        },
    }
}

/// A rename that names both sides is a removal of the first path and then a
/// creation of the second.
pub proof fn rename_is_removal_and_creation(root: Seq<u8>, from: PathData, to: PathData)
    ensures
        event_actions(
            EventData {
                kind: EventKind::Modify(ModifyKind::Name(RenameMode::Both)),
                rescan: false,
                paths: seq![from, to],
            },
            root,
        ) == event_actions(event_of(EventKind::Remove, from), root) + event_actions(
            event_of(EventKind::Create, to),
            root,
        ),
{
    one_path_alone(EventAction::Vanish, root, from);
    one_path_alone(EventAction::Appear, root, to);
}

/// Events that say nothing of notes ask for nothing, and neither does an event
/// that says that others were lost.
pub proof fn other_events_ask_for_nothing(e: EventData, root: Seq<u8>)
    requires
        e.rescan || e.kind == EventKind::Any || e.kind == EventKind::Other || e.kind
            == EventKind::Modify(ModifyKind::Other) || (e.kind is Access && e.kind
            != EventKind::Access(AccessKind::Close(AccessMode::Write))),
    ensures
        event_actions(e, root) == Seq::<ActionData>::empty(),
{
}

/// Whether an action is asked for and the one against it is not asked for
/// later.
pub open spec fn stands(actions: Seq<ActionData>, wanted: ActionData, against: ActionData) -> bool {
    exists|i: int|
        0 <= i < actions.len() && #[trigger] actions[i] == wanted && forall|j: int|
            i < j < actions.len() ==> #[trigger] actions[j] != against
}

proof fn stands_by_the_last(actions: Seq<ActionData>, wanted: ActionData, against: ActionData)
    requires
        wanted != against,
        actions.len() > 0,
    ensures
        stands(actions, wanted, against) <==> actions.last() == wanted || (actions.last() != against
            && stands(actions.drop_last(), wanted, against)),
{
    let before = actions.drop_last();
    if stands(actions, wanted, against) {
        let i = choose|i: int|
            0 <= i < actions.len() && #[trigger] actions[i] == wanted && forall|j: int|
                i < j < actions.len() ==> #[trigger] actions[j] != against;
        if i < before.len() {
            assert(before[i] == wanted);
            assert forall|j: int| i < j < before.len() implies #[trigger] before[j] != against by {
                assert(actions[j] == before[j]);
            }
            assert(actions[actions.len() - 1] != against);
        }
    }
    if actions.last() == wanted {
        assert(actions[actions.len() - 1] == wanted);
    }
    if actions.last() != against && stands(before, wanted, against) {
        let i = choose|i: int|
            0 <= i < before.len() && #[trigger] before[i] == wanted && forall|j: int|
                i < j < before.len() ==> #[trigger] before[j] != against;
        assert(actions[i] == wanted);
        assert forall|j: int| i < j < actions.len() implies #[trigger] actions[j] != against by {
            if j < before.len() {
                assert(before[j] == actions[j]);
            }
        }
    }
}

proof fn last_by_position(actions: Seq<ActionData>, p: Seq<char>)
    ensures
        note_actions(actions).contains_key(p) && note_actions(actions)[p] <==> stands(
            actions,
            ActionData::Upsert(p),
            ActionData::Delete(p),
        ),
        note_actions(actions).contains_key(p) && !note_actions(actions)[p] <==> stands(
            actions,
            ActionData::Delete(p),
            ActionData::Upsert(p),
        ),
        tree_actions(actions).contains_key(p) && tree_actions(actions)[p] <==> stands(
            actions,
            ActionData::UpsertTree(p),
            ActionData::DeleteTree(p),
        ),
        tree_actions(actions).contains_key(p) && !tree_actions(actions)[p] <==> stands(
            actions,
            ActionData::DeleteTree(p),
            ActionData::UpsertTree(p),
        ),
    decreases actions.len(),
{
    if actions.len() > 0 {
        last_by_position(actions.drop_last(), p);
        stands_by_the_last(actions, ActionData::Upsert(p), ActionData::Delete(p));
        stands_by_the_last(actions, ActionData::Delete(p), ActionData::Upsert(p));
        stands_by_the_last(actions, ActionData::UpsertTree(p), ActionData::DeleteTree(p));
        stands_by_the_last(actions, ActionData::DeleteTree(p), ActionData::UpsertTree(p));
    }
}

/// A window reads a note exactly if that was asked for and dropping it was not
/// asked for later, and drops it exactly the other way round. So it is with
/// directories; neither has to do with the other.
pub proof fn windows_go_by_what_was_asked_last(actions: Seq<ActionData>, p: Seq<char>)
    ensures
        coalesced(actions).upserts.contains(p) <==> stands(
            actions,
            ActionData::Upsert(p),
            ActionData::Delete(p),
        ),
        coalesced(actions).deletes.contains(p) <==> stands(
            actions,
            ActionData::Delete(p),
            ActionData::Upsert(p),
        ),
        coalesced(actions).upsert_trees.contains(p) <==> stands(
            actions,
            ActionData::UpsertTree(p),
            ActionData::DeleteTree(p),
        ),
        coalesced(actions).delete_trees.contains(p) <==> stands(
            actions,
            ActionData::DeleteTree(p),
            ActionData::UpsertTree(p),
        ),
{
    batch_names_each_path_once(actions, p);
    last_by_position(actions, p);
}

proof fn window_actions_add_up(a: Seq<EventData>, b: Seq<EventData>, root: Seq<u8>)
    ensures
        window_actions(a + b, root) == window_actions(a, root) + window_actions(b, root),
    decreases b.len(),
{
    if b.len() == 0 {
        assert(a + b =~= a);
        assert(window_actions(a, root) + seq![] =~= window_actions(a, root));
    } else {
        assert((a + b).drop_last() =~= a + b.drop_last());
        window_actions_add_up(a, b.drop_last(), root);
        assert(window_actions(a + b, root) =~= window_actions(a, root) + window_actions(b, root));
    }
}

proof fn events_add_up(a: Seq<EventOutcome>, b: Seq<EventOutcome>)
    ensures
        events_data(a + b) == events_data(a) + events_data(b),
    decreases b.len(),
{
    if b.len() == 0 {
        assert(a + b =~= a);
        assert(events_data(a) + seq![] =~= events_data(a));
    } else {
        assert((a + b).drop_last() =~= a + b.drop_last());
        events_add_up(a, b.drop_last());
        assert(events_data(a + b) =~= events_data(a) + events_data(b));
    }
}

/// What came in during one window asks for what its events ask for, in the
/// order in which they came; an error of the backend asks for nothing.
pub proof fn windows_take_events_in_turn(
    a: Seq<EventOutcome>,
    one: EventOutcome,
    b: Seq<EventOutcome>,
    root: Seq<u8>,
)
    ensures
        window_actions(events_data(a + seq![one] + b), root) == window_actions(
            events_data(a),
            root,
        ) + (match one {
            Ok(e) => event_actions(e@, root),
            Err(_) => seq![],
        }) + window_actions(events_data(b), root),
        overflowed(events_data(a + seq![one] + b)) <==> overflowed(events_data(a)) || (one matches Ok(
            e,
        ) && e.rescan) || overflowed(events_data(b)),
{
    events_add_up(a + seq![one], b);
    events_add_up(a, seq![one]);
    let x = events_data(a);
    let y = events_data(seq![one]);
    let z = events_data(b);
    assert(seq![one].drop_last() =~= seq![]);
    assert(events_data(seq![]) =~= seq![]);
    window_actions_add_up(x + y, z, root);
    window_actions_add_up(x, y, root);
    match one {
        Ok(e) => {
            assert(y =~= seq![e@]);
            assert(y.drop_last() =~= seq![]);
            assert(window_actions(seq![], root) =~= seq![]);
            assert(window_actions(y, root) =~= event_actions(e@, root));
        },
        Err(_) => {
            assert(y =~= seq![]);
        },
    }
    let all = x + y + z;
    if overflowed(all) {
        let i = choose|i: int| 0 <= i < all.len() && (#[trigger] all[i]).rescan;
        if i < x.len() {
            assert(x[i].rescan);
        } else if i >= x.len() + y.len() {
            assert(z[i - x.len() - y.len()].rescan);
        }
    }
    if overflowed(x) {
        let i = choose|i: int| 0 <= i < x.len() && (#[trigger] x[i]).rescan;
        assert(all[i].rescan);
    }
    if overflowed(z) {
        let i = choose|i: int| 0 <= i < z.len() && (#[trigger] z[i]).rescan;
        assert(all[x.len() + y.len() + i].rescan);
    }
    if one matches Ok(e) && e.rescan {
        assert(all[x.len() as int].rescan);
    }
}

/// A window has something to change exactly if some path is to be read,
/// dropped or walked.
pub proof fn windows_are_idle_without_paths(w: WindowData)
    ensures
        idle(w) <==> forall|p: Seq<char>|
            !(#[trigger] w.upserts.contains(p)) && !w.deletes.contains(p) && !w.upsert_trees.contains(
                p,
            ) && !w.delete_trees.contains(p),
{
    if !idle(w) {
        if w.upserts.len() > 0 {
            assert(w.upserts.contains(w.upserts[0]));
        } else if w.deletes.len() > 0 {
            assert(!w.upserts.contains(w.deletes[0]));
            assert(w.deletes.contains(w.deletes[0]));
        } else if w.upsert_trees.len() > 0 {
            assert(!w.upserts.contains(w.upsert_trees[0]));
            assert(w.upsert_trees.contains(w.upsert_trees[0]));
        } else {
            assert(!w.upserts.contains(w.delete_trees[0]));
            assert(w.delete_trees.contains(w.delete_trees[0]));
        }
    }
}

/// Every note of a batch that was read and gives a note is put in, every one
/// that is no longer there is dropped, and every one that is there and gives
/// none is named as failed.
pub proof fn batches_account_for_every_read(
    root: Seq<u8>,
    reads: Seq<ReadData>,
    deletes: Seq<Seq<char>>,
    trees: Seq<TreeData>,
    delete_trees: Seq<Seq<char>>,
    i: int,
)
    requires
        0 <= i < reads.len(),
    ensures
        ({
            let abs = paths::joined(root, encode_utf8(reads[i].path));
            let batch = index_batch(root, reads, deletes, trees, delete_trees);
            match vault::note_of(root, abs, reads[i].read) {
                Ok((note, _)) => batch.upserts.contains(note),
                Err(kind) => if kind matches IssueKindData::Io { message, not_found } && not_found {
                    batch.deletes.contains(reads[i].path)
                } else {
                    reads_failed(root, reads).contains(IssueData { path: abs, kind })
                },
            }
        }),
{
    let batch = index_batch(root, reads, deletes, trees, delete_trees);
    each_read_counts(root, reads, i);
    match read_note(root, reads[i]) {
        Ok((note, _)) => {
            let a = notes_read(root, reads);
            assert(batch.upserts[a.index_of(note)] == note);
        },
        Err(kind) => {
            if is_gone(kind) {
                let b = paths_gone(root, reads);
                assert(batch.deletes[deletes.len() + b.index_of(reads[i].path)] == reads[i].path);
            }
        },
    }
}

proof fn each_read_counts(root: Seq<u8>, reads: Seq<ReadData>, i: int)
    requires
        0 <= i < reads.len(),
    ensures
        match read_note(root, reads[i]) {
            Ok((note, _)) => notes_read(root, reads).contains(note),
            Err(kind) => if is_gone(kind) {
                paths_gone(root, reads).contains(reads[i].path)
            } else {
                reads_failed(root, reads).contains(
                    IssueData { path: paths::joined(root, encode_utf8(reads[i].path)), kind },
                )
            },
        },
    decreases reads.len(),
{
    let rest = reads.drop_last();
    let n = reads.len() - 1;
    let a = notes_read(root, rest);
    let b = paths_gone(root, rest);
    let c = reads_failed(root, rest);
    let x = notes_read(root, reads);
    let y = paths_gone(root, reads);
    let z = reads_failed(root, reads);
    if i < n {
        assert(rest[i] == reads[i]);
        each_read_counts(root, rest, i);
        match read_note(root, reads[i]) {
            Ok((note, _)) => {
                assert(x[a.index_of(note)] == note);
            },
            Err(kind) => {
                let issue = IssueData {
                    path: paths::joined(root, encode_utf8(reads[i].path)),
                    kind,
                };
                if is_gone(kind) {
                    assert(y[b.index_of(reads[i].path)] == reads[i].path);
                } else {
                    assert(z[c.index_of(issue)] == issue);
                }
            },
        }
    } else {
        match read_note(root, reads[i]) {
            Ok((note, _)) => {
                assert(x[x.len() - 1] == note);
            },
            Err(kind) => {
                if is_gone(kind) {
                    assert(y[y.len() - 1] == reads[i].path);
                } else {
                    assert(z[z.len() - 1].kind == kind);
                }
            },
        }
    }
}

/// Every note of a directory that was walked is put in, and every path and
/// directory that the batch drops is dropped.
pub proof fn batches_take_walks_and_drops(
    root: Seq<u8>,
    reads: Seq<ReadData>,
    deletes: Seq<Seq<char>>,
    trees: Seq<TreeData>,
    delete_trees: Seq<Seq<char>>,
    i: int,
    note: NoteData,
)
    ensures
        ({
            let batch = index_batch(root, reads, deletes, trees, delete_trees);
            &&& 0 <= i < trees.len() && vault::scanned(root, trees[i].walk).notes.contains(note)
                ==> batch.upserts.contains(note)
            &&& 0 <= i < deletes.len() ==> batch.deletes.contains(deletes[i])
            &&& 0 <= i < delete_trees.len() ==> batch.delete_prefixes.contains(delete_trees[i])
        }),
{
    let batch = index_batch(root, reads, deletes, trees, delete_trees);
    if 0 <= i < trees.len() && vault::scanned(root, trees[i].walk).notes.contains(note) {
        each_walk_counts(root, trees, i, note);
        let a = notes_read(root, reads);
        let b = notes_walked(root, trees);
        assert(batch.upserts[a.len() + b.index_of(note)] == note);
    }
    if 0 <= i < deletes.len() {
        assert(batch.deletes[i] == deletes[i]);
    }
    if 0 <= i < delete_trees.len() {
        assert(batch.delete_prefixes[i] == delete_trees[i]);
    }
}

proof fn each_walk_counts(root: Seq<u8>, trees: Seq<TreeData>, i: int, note: NoteData)
    requires
        0 <= i < trees.len(),
        vault::scanned(root, trees[i].walk).notes.contains(note),
    ensures
        notes_walked(root, trees).contains(note),
    decreases trees.len(),
{
    let rest = trees.drop_last();
    let a = notes_walked(root, rest);
    let b = vault::scanned(root, trees.last().walk).notes;
    let all = notes_walked(root, trees);
    if i < trees.len() - 1 {
        assert(rest[i] == trees[i]);
        each_walk_counts(root, rest, i, note);
        assert(all[a.index_of(note)] == note);
    } else {
        assert(all[a.len() + b.index_of(note)] == note);
    }
}

/// A batch puts in no note that was not read or found on a walk, and drops no
/// path but those that it was asked to drop and those that are gone.
pub proof fn batches_add_nothing(
    root: Seq<u8>,
    reads: Seq<ReadData>,
    deletes: Seq<Seq<char>>,
    trees: Seq<TreeData>,
    delete_trees: Seq<Seq<char>>,
    note: NoteData,
    path: Seq<char>,
)
    ensures
        ({
            let batch = index_batch(root, reads, deletes, trees, delete_trees);
            &&& batch.upserts.contains(note) ==> (exists|i: int|
                0 <= i < reads.len() && (vault::note_of(
                    root,
                    paths::joined(root, encode_utf8((#[trigger] reads[i]).path)),
                    reads[i].read,
                ) matches Ok(x) && x.0 == note)) || (exists|i: int|
                0 <= i < trees.len() && vault::scanned(
                    root,
                    (#[trigger] trees[i]).walk,
                ).notes.contains(note))
            &&& batch.deletes.contains(path) ==> deletes.contains(path) || exists|i: int|
                0 <= i < reads.len() && (#[trigger] reads[i]).path == path && (vault::note_of(
                    root,
                    paths::joined(root, encode_utf8(reads[i].path)),
                    reads[i].read,
                ) matches Err(IssueKindData::Io { message, not_found }) && not_found)
            &&& batch.delete_prefixes.contains(path) ==> delete_trees.contains(path) || exists|i: int|
                0 <= i < trees.len() && (#[trigger] trees[i]).dir == path
        }),
{
    let batch = index_batch(root, reads, deletes, trees, delete_trees);
    let a = notes_read(root, reads);
    let b = notes_walked(root, trees);
    let c = paths_gone(root, reads);
    if batch.upserts.contains(note) {
        let i = batch.upserts.index_of(note);
        if i < a.len() {
            assert(a[i] == note);
            assert(a.contains(note));
            read_notes_were_read(root, reads, note, path);
        } else {
            assert(b[i - a.len()] == note);
            assert(b.contains(note));
            walked_notes_were_found(root, trees, note);
        }
    }
    if batch.deletes.contains(path) {
        let i = batch.deletes.index_of(path);
        if i < deletes.len() {
            assert(deletes[i] == path);
        } else {
            assert(c[i - deletes.len()] == path);
            assert(c.contains(path));
            read_notes_were_read(root, reads, note, path);
        }
    }
    if batch.delete_prefixes.contains(path) {
        let i = batch.delete_prefixes.index_of(path);
        if i < delete_trees.len() {
            assert(delete_trees[i] == path);
        } else {
            assert(trees[i - delete_trees.len()].dir == path);
        }
    }
}

proof fn read_notes_were_read(
    root: Seq<u8>,
    reads: Seq<ReadData>,
    note: NoteData,
    path: Seq<char>,
)
    ensures
        notes_read(root, reads).contains(note) ==> exists|i: int|
            0 <= i < reads.len() && (vault::note_of(
                root,
                paths::joined(root, encode_utf8((#[trigger] reads[i]).path)),
                reads[i].read,
            ) matches Ok(x) && x.0 == note),
        paths_gone(root, reads).contains(path) ==> exists|i: int|
            0 <= i < reads.len() && (#[trigger] reads[i]).path == path && (vault::note_of(
                root,
                paths::joined(root, encode_utf8(reads[i].path)),
                reads[i].read,
            ) matches Err(IssueKindData::Io { message, not_found }) && not_found),
    decreases reads.len(),
{
    if reads.len() > 0 {
        let rest = reads.drop_last();
        let n = reads.len() - 1;
        read_notes_were_read(root, rest, note, path);
        let a = notes_read(root, rest);
        let x = notes_read(root, reads);
        let b = paths_gone(root, rest);
        let y = paths_gone(root, reads);
        if x.contains(note) {
            let k = x.index_of(note);
            if k < a.len() {
                assert(a[k] == note);
                assert(a.contains(note));
                let i = choose|i: int|
                    0 <= i < rest.len() && (vault::note_of(
                        root,
                        paths::joined(root, encode_utf8((#[trigger] rest[i]).path)),
                        rest[i].read,
                    ) matches Ok(x) && x.0 == note);
                assert(reads[i] == rest[i]);
            } else {
                assert(reads[n] == reads.last());
            }
        }
        if y.contains(path) {
            let k = y.index_of(path);
            if k < b.len() {
                assert(b[k] == path);
                assert(b.contains(path));
                let i = choose|i: int|
                    0 <= i < rest.len() && (#[trigger] rest[i]).path == path && (vault::note_of(
                        root,
                        paths::joined(root, encode_utf8(rest[i].path)),
                        rest[i].read,
                    ) matches Err(IssueKindData::Io { message, not_found }) && not_found);
                assert(reads[i] == rest[i]);
            } else {
                assert(reads[n].path == path);
            }
        }
    }
}

proof fn walked_notes_were_found(root: Seq<u8>, trees: Seq<TreeData>, note: NoteData)
    requires
        notes_walked(root, trees).contains(note),
    ensures
        exists|i: int|
            0 <= i < trees.len() && vault::scanned(
                root,
                (#[trigger] trees[i]).walk,
            ).notes.contains(note),
    decreases trees.len(),
{
    let all = notes_walked(root, trees);
    let k = all.index_of(note);
    if trees.len() > 0 {
        let rest = trees.drop_last();
        let n = trees.len() - 1;
        let a = notes_walked(root, rest);
        let b = vault::scanned(root, trees.last().walk).notes;
        if k < a.len() {
            assert(a[k] == note);
            assert(a.contains(note));
            walked_notes_were_found(root, rest, note);
            let i = choose|i: int|
                0 <= i < rest.len() && vault::scanned(
                    root,
                    (#[trigger] rest[i]).walk,
                ).notes.contains(note);
            assert(trees[i] == rest[i]);
        } else {
            assert(b[k - a.len()] == note);
            assert(vault::scanned(root, trees[n].walk).notes.contains(note));
        }
    }
}

/// What is left of a window and what has passed of it add up to the window; a
/// window that was open long enough has nothing left.
pub proof fn windows_run_out(opened: u128, now: u128, window: u128, r: Option<u128>)
    requires
        opened + window <= u128::MAX,
        opened <= now,
        call_ensures(window_left, (opened, now, window), r),
    ensures
        r matches Some(left) ==> left > 0 && left + (now - opened) == window,
        now - opened >= window ==> r is None,
        r is None ==> now - opened >= window,
{
}

/// An event says that others were lost exactly if it is marked so.
pub proof fn overflow_is_a_mark(event: &Event, r: bool)
    requires
        call_ensures(is_overflow, (event,), r),
    ensures
        r <==> event.rescan,
{
}

}
