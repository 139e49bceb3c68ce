use anwesen::app::{
    call_not_supported, finish_walk, handle_index_message, watcher_started, IndexBatch,
    IndexWriterMessage, RestartCounters, RoleCounter, WatcherStart,
};
use anwesen::dates::Instant;
use anwesen::health::{HealthState, WatcherState};
use anwesen::sorted::SortedMap;
use anwesen::store::NoteStore;
use anwesen::vault::{Note, ScanResult};

fn note(path: &str) -> Note {
    Note {
        path: path.into(),
        frontmatter: SortedMap::new(),
        body: String::new(),
        raw_bytes: b"hi".to_vec(),
        last_modified: Instant::from_timestamp(0, 0).unwrap(),
        etag: "\"abc\"".into(),
        size: 2,
    }
}

fn keys(m: &SortedMap<u32>) -> Vec<String> {
    (0..m.len()).map(|i| m.key_at(i).clone()).collect()
}

#[test]
fn role_counter_first_init_is_zero() {
    let mut c = RoleCounter::default();
    assert_eq!(c.record_init(), 0);
    assert_eq!(c.get(), 0);
}

#[test]
fn role_counter_counts_restarts_only() {
    let mut c = RoleCounter::default();
    assert_eq!(c.record_init(), 0);
    assert_eq!(c.record_init(), 1);
    assert_eq!(c.record_init(), 2);
    assert_eq!(c.get(), 2);
}

#[test]
fn snapshot_keys_match_health_contract() {
    let counters = RestartCounters::new();
    let snap = counters.snapshot();
    assert_eq!(
        keys(&snap),
        vec![
            "filesystem_watcher",
            "http_server",
            "index_writer",
            "vault_scanner"
        ]
    );
    assert!((0..snap.len()).all(|i| *snap.value_at(i) == 0));
}

#[test]
fn snapshot_shows_each_counter_under_its_name() {
    let mut counters = RestartCounters::default();
    counters.index_writer.record_init();
    counters.index_writer.record_init();
    counters.http_server.record_init();
    let snap = counters.snapshot();
    assert_eq!(snap.get("index_writer"), Some(&1));
    assert_eq!(snap.get("http_server"), Some(&0));
}

#[test]
fn batch_drops_directories_and_notes_before_it_adds() {
    let mut store = NoteStore::new();
    let mut health = HealthState::new();
    let now = Instant::from_timestamp(1_000, 0).unwrap();
    handle_index_message(
        &mut store,
        &mut health,
        IndexWriterMessage::Rebuild(vec![
            note("Notes/old.md"),
            note("Notes/deep/old.md"),
            note("Notes.md"),
            note("a.md"),
        ]),
        now,
    );
    assert_eq!(store.len(), 4);
    let mut fresh = note("Notes/old.md");
    fresh.etag = "\"new\"".into();
    handle_index_message(
        &mut store,
        &mut health,
        IndexWriterMessage::Batch(IndexBatch {
            upserts: vec![fresh],
            deletes: vec!["a.md".to_string()],
            delete_prefixes: vec!["Notes".to_string()],
        }),
        now,
    );
    assert_eq!(store.len(), 2);
    assert_eq!(store.get("Notes/old.md").unwrap().etag, "\"new\"");
    assert!(store.get("Notes/deep/old.md").is_none());
    assert!(store.get("Notes.md").is_some());
    assert!(store.get("a.md").is_none());
    assert_eq!(health.last_index_update(), Some(now));
}

#[test]
fn single_messages_add_and_drop_one_note() {
    let mut store = NoteStore::new();
    let mut health = HealthState::new();
    let now = Instant::from_timestamp(5, 0).unwrap();
    handle_index_message(
        &mut store,
        &mut health,
        IndexWriterMessage::Upsert(Box::new(note("a.md"))),
        now,
    );
    assert_eq!(store.len(), 1);
    handle_index_message(
        &mut store,
        &mut health,
        IndexWriterMessage::Delete("a.md".into()),
        now,
    );
    assert!(store.is_empty());
}

#[test]
fn finished_walk_rebuilds_and_clears_the_flag() {
    let mut health = HealthState::new();
    health.set_in_flight_rescan(true);
    let message = finish_walk(
        &mut health,
        ScanResult {
            notes: vec![note("a.md")],
            issues: vec![],
            warnings: vec![],
        },
    );
    assert!(!health.in_flight_rescan());
    assert!(matches!(message, IndexWriterMessage::Rebuild(notes) if notes.len() == 1));
}

#[test]
fn watcher_start_decides_the_watcher_state() {
    let mut health = HealthState::new();
    let e = watcher_started(&mut health, WatcherStart::NotMade("no inotify".into())).unwrap_err();
    assert_eq!(e, "filesystem_watcher: recommended_watcher: no inotify");
    assert_eq!(health.watcher_state(), WatcherState::Degraded);
    assert!(watcher_started(&mut health, WatcherStart::Bound).is_ok());
    assert_eq!(health.watcher_state(), WatcherState::Running);
    let e = watcher_started(&mut health, WatcherStart::NotWatching("gone".into())).unwrap_err();
    assert_eq!(e, "filesystem_watcher: watch: gone");
    assert_eq!(health.watcher_state(), WatcherState::Degraded);
}

#[test]
fn calls_are_answered_with_the_role() {
    assert_eq!(
        call_not_supported("index_writer"),
        "index_writer does not handle synchronous calls; use cast"
    );
}

#[test]
fn only_a_rebuild_makes_the_index_ready() {
    let mut store = NoteStore::new();
    let mut health = HealthState::new();
    let now = Instant::from_timestamp(0, 0).unwrap();
    handle_index_message(
        &mut store,
        &mut health,
        IndexWriterMessage::Upsert(Box::new(note("a.md"))),
        now,
    );
    assert!(!store.is_loaded());
    handle_index_message(
        &mut store,
        &mut health,
        IndexWriterMessage::Rebuild(vec![]),
        now,
    );
    assert!(store.is_loaded());
    handle_index_message(
        &mut store,
        &mut health,
        IndexWriterMessage::Delete("a.md".into()),
        now,
    );
    assert!(store.is_loaded());
}
