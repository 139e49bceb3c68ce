use anwesen::dates::Instant;
use anwesen::vault::{wanted, FileRead, ReadFailure, ScanIssue, WalkItem};
use anwesen::watcher::{
    absolute_path, build_index_batch, build_index_batch_audit, classify, close_window, coalesce,
    is_overflow, map_event, window_left, AccessKind, AccessMode, Event, EventAction, EventKind, EventPath, ModifyKind, ReadBatch,
    ReadUpsert, RenameMode, WalkedTree, WatchAction, WatchBatch,
};

const ROOT: &[u8] = b"/v";

fn path(p: &str, is_dir: bool, exists: bool) -> EventPath {
    EventPath {
        path: p.as_bytes().to_vec(),
        is_dir,
        exists,
    }
}

fn ev(kind: EventKind, paths: &[&str]) -> Event {
    Event {
        kind,
        rescan: false,
        paths: paths.iter().map(|p| path(p, false, false)).collect(),
    }
}

fn walk(files: &[(&str, &str)]) -> Vec<WalkItem> {
    files
        .iter()
        .map(|(rel, body)| {
            let path = format!("/v/{rel}").into_bytes();
            let read = if wanted(true, &path) {
                Some(Ok(FileRead {
                    raw_bytes: body.as_bytes().to_vec(),
                    modified: Instant::from_timestamp(0, 0).unwrap(),
                }))
            } else {
                None
            };
            WalkItem::Entry {
                path,
                is_file: true,
                read,
            }
        })
        .collect()
}

fn empty_batch() -> ReadBatch {
    ReadBatch {
        upserts: vec![],
        deletes: vec![],
        upsert_trees: vec![],
        delete_trees: vec![],
    }
}

#[test]
fn create_md_under_vault_is_upsert() {
    let e = ev(EventKind::Create, &["/v/a.md"]);
    assert_eq!(
        map_event(&e, ROOT),
        vec![WatchAction::Upsert("a.md".into())]
    );
}

#[test]
fn non_md_file_is_dropped() {
    let e = ev(EventKind::Create, &["/v/a.txt"]);
    assert!(map_event(&e, ROOT).is_empty());
}

#[test]
fn dot_directory_descendants_are_dropped() {
    let e = ev(EventKind::Create, &["/v/.obsidian/x.md"]);
    assert!(map_event(&e, ROOT).is_empty());
    let e = ev(EventKind::Create, &["/v/sub/.hidden/y.md"]);
    assert!(map_event(&e, ROOT).is_empty());
}

#[test]
fn path_outside_vault_is_dropped() {
    let e = ev(EventKind::Create, &["/elsewhere/a.md"]);
    assert!(map_event(&e, ROOT).is_empty());
}

#[test]
fn modify_data_becomes_upsert() {
    let e = ev(EventKind::Modify(ModifyKind::Data), &["/v/a.md"]);
    assert_eq!(
        map_event(&e, ROOT),
        vec![WatchAction::Upsert("a.md".into())]
    );
}

#[test]
fn close_write_becomes_upsert() {
    let e = ev(
        EventKind::Access(AccessKind::Close(AccessMode::Write)),
        &["/v/a.md"],
    );
    assert_eq!(
        map_event(&e, ROOT),
        vec![WatchAction::Upsert("a.md".into())]
    );
}

#[test]
fn rename_from_is_delete() {
    let e = ev(
        EventKind::Modify(ModifyKind::Name(RenameMode::From)),
        &["/v/a.md"],
    );
    assert_eq!(
        map_event(&e, ROOT),
        vec![
            WatchAction::Delete("a.md".into()),
            WatchAction::DeleteTree("a.md".into())
        ]
    );
}

#[test]
fn rename_to_is_upsert() {
    let e = ev(
        EventKind::Modify(ModifyKind::Name(RenameMode::To)),
        &["/v/b.md"],
    );
    assert_eq!(
        map_event(&e, ROOT),
        vec![WatchAction::Upsert("b.md".into())]
    );
}

#[test]
fn rename_both_emits_delete_then_upsert() {
    let e = ev(
        EventKind::Modify(ModifyKind::Name(RenameMode::Both)),
        &["/v/a.md", "/v/b.md"],
    );
    assert_eq!(
        map_event(&e, ROOT),
        vec![
            WatchAction::Delete("a.md".into()),
            WatchAction::DeleteTree("a.md".into()),
            WatchAction::Upsert("b.md".into())
        ]
    );
}

#[test]
fn remove_is_delete() {
    let e = ev(EventKind::Remove, &["/v/a.md"]);
    assert_eq!(
        map_event(&e, ROOT),
        vec![
            WatchAction::Delete("a.md".into()),
            WatchAction::DeleteTree("a.md".into())
        ]
    );
}

#[test]
fn removed_md_directory_drops_the_notes_under_it() {
    let e = ev(EventKind::Remove, &["/v/Archive.md"]);
    assert_eq!(
        map_event(&e, ROOT),
        vec![
            WatchAction::Delete("Archive.md".into()),
            WatchAction::DeleteTree("Archive.md".into())
        ]
    );
}

#[test]
fn coalesce_last_action_per_path_wins() {
    let actions = vec![
        WatchAction::Upsert("a.md".into()),
        WatchAction::Upsert("a.md".into()),
        WatchAction::Delete("b.md".into()),
        WatchAction::Upsert("b.md".into()),
        WatchAction::Delete("c.md".into()),
    ];
    let batch = coalesce(actions);
    assert_eq!(batch.upserts, vec!["a.md".to_string(), "b.md".to_string()]);
    assert_eq!(batch.deletes, vec!["c.md".to_string()]);
}

#[test]
fn coalesce_keeps_notes_and_trees_apart() {
    let actions = vec![
        WatchAction::Upsert("Notes/a.md".into()),
        WatchAction::DeleteTree("Notes".into()),
        WatchAction::UpsertTree("Fresh".into()),
    ];
    let batch = coalesce(actions);
    assert_eq!(batch.upserts, vec!["Notes/a.md".to_string()]);
    assert!(batch.deletes.is_empty());
    assert_eq!(batch.upsert_trees, vec!["Fresh".to_string()]);
    assert_eq!(batch.delete_trees, vec!["Notes".to_string()]);
}

#[test]
fn coalesced_paths_ascend() {
    let batch = coalesce(vec![
        WatchAction::Upsert("b.md".into()),
        WatchAction::Upsert("a/z.md".into()),
        WatchAction::Upsert("a.md".into()),
        WatchAction::Upsert("b.md".into()),
    ]);
    assert_eq!(batch.upserts, vec!["a.md", "a/z.md", "b.md"]);
    assert_eq!(coalesce(vec![]), WatchBatch::default());
}

#[test]
fn removed_directory_is_a_tree_delete() {
    let e = ev(EventKind::Remove, &["/v/Notes"]);
    assert_eq!(
        map_event(&e, ROOT),
        vec![WatchAction::DeleteTree("Notes".into())]
    );
}

#[test]
fn directory_renamed_away_is_a_tree_delete() {
    let e = ev(
        EventKind::Modify(ModifyKind::Name(RenameMode::From)),
        &["/v/Notes"],
    );
    assert_eq!(
        map_event(&e, ROOT),
        vec![WatchAction::DeleteTree("Notes".into())]
    );
}

#[test]
fn vault_root_itself_is_not_a_tree_action() {
    let e = ev(EventKind::Remove, &["/v"]);
    assert!(map_event(&e, ROOT).is_empty());
}

#[test]
fn removed_non_note_file_touches_no_note() {
    let e = ev(EventKind::Remove, &["/v/image.png"]);
    assert_eq!(
        map_event(&e, ROOT),
        vec![WatchAction::DeleteTree("image.png".into())]
    );
}

#[test]
fn created_directory_is_a_tree_upsert() {
    let e = Event {
        kind: EventKind::Create,
        rescan: false,
        paths: vec![path("/v/Notes", true, true)],
    };
    assert_eq!(
        map_event(&e, ROOT),
        vec![WatchAction::UpsertTree("Notes".into())]
    );
}

#[test]
fn unpaired_rename_resolves_by_existence() {
    let kind = EventKind::Modify(ModifyKind::Name(RenameMode::Any));
    let present = Event {
        kind,
        rescan: false,
        paths: vec![path("/v/here.md", false, true)],
    };
    assert_eq!(
        map_event(&present, ROOT),
        vec![WatchAction::Upsert("here.md".into())]
    );
    let absent = Event {
        kind,
        rescan: false,
        paths: vec![path("/v/gone.md", false, false)],
    };
    assert_eq!(
        map_event(&absent, ROOT),
        vec![
            WatchAction::Delete("gone.md".into()),
            WatchAction::DeleteTree("gone.md".into())
        ]
    );
}

#[test]
fn upsert_of_a_vanished_file_becomes_a_delete() {
    let batch = ReadBatch {
        upserts: vec![ReadUpsert {
            path: "gone.md".to_string(),
            read: Err(ReadFailure {
                message: "No such file or directory (os error 2)".into(),
                not_found: true,
            }),
        }],
        ..empty_batch()
    };
    let index_batch = build_index_batch(ROOT, batch);
    assert!(index_batch.upserts.is_empty());
    assert_eq!(index_batch.deletes, vec!["gone.md".to_string()]);
}

#[test]
fn a_file_that_cannot_be_read_changes_nothing() {
    let batch = ReadBatch {
        upserts: vec![
            ReadUpsert {
                path: "locked.md".to_string(),
                read: Err(ReadFailure {
                    message: "permission denied".into(),
                    not_found: false,
                }),
            },
            ReadUpsert {
                path: "binary.md".to_string(),
                read: Ok(FileRead {
                    raw_bytes: vec![0xff],
                    modified: Instant::from_timestamp(0, 0).unwrap(),
                }),
            },
        ],
        ..empty_batch()
    };
    let index_batch = build_index_batch(ROOT, batch);
    assert!(index_batch.upserts.is_empty());
    assert!(index_batch.deletes.is_empty());
    assert!(index_batch.delete_prefixes.is_empty());
}

#[test]
fn tree_upsert_walks_the_subtree() {
    let batch = ReadBatch {
        upsert_trees: vec![WalkedTree {
            dir: "Notes".to_string(),
            walk: walk(&[
                ("Notes/a.md", "---\nk: 1\n---\nbody\n"),
                ("Notes/deep/b.md", "body\n"),
                ("Notes/skip.txt", "no\n"),
            ]),
        }],
        ..empty_batch()
    };
    let index_batch = build_index_batch(ROOT, batch);
    let mut paths: Vec<String> = index_batch.upserts.into_iter().map(|n| n.path).collect();
    paths.sort();
    assert_eq!(paths, vec!["Notes/a.md", "Notes/deep/b.md"]);
}

#[test]
fn tree_upsert_carries_its_prefix_delete() {
    let batch = coalesce(vec![
        WatchAction::DeleteTree("Notes".to_string()),
        WatchAction::UpsertTree("Notes".to_string()),
    ]);
    assert!(batch.delete_trees.is_empty());
    assert_eq!(batch.upsert_trees, vec!["Notes".to_string()]);

    let index_batch = build_index_batch(
        ROOT,
        ReadBatch {
            upserts: vec![],
            deletes: batch.deletes,
            upsert_trees: vec![WalkedTree {
                dir: "Notes".to_string(),
                walk: walk(&[("Notes/new.md", "body\n")]),
            }],
            delete_trees: batch.delete_trees,
        },
    );
    assert_eq!(index_batch.delete_prefixes, vec!["Notes".to_string()]);
    let paths: Vec<String> = index_batch.upserts.into_iter().map(|n| n.path).collect();
    assert_eq!(paths, vec!["Notes/new.md"]);
}

#[test]
fn overflow_event_returns_empty_actions() {
    let e = Event {
        kind: EventKind::Other,
        rescan: true,
        paths: vec![],
    };
    assert!(is_overflow(&e));
    assert!(map_event(&e, ROOT).is_empty());
}

#[test]
fn event_kinds_are_classified() {
    let name = |m| EventKind::Modify(ModifyKind::Name(m));
    assert_eq!(classify(EventKind::Create), Some(EventAction::Appear));
    assert_eq!(classify(EventKind::Remove), Some(EventAction::Vanish));
    assert_eq!(
        classify(EventKind::Modify(ModifyKind::Any)),
        Some(EventAction::Modify)
    );
    assert_eq!(
        classify(EventKind::Modify(ModifyKind::Metadata)),
        Some(EventAction::Modify)
    );
    assert_eq!(classify(name(RenameMode::Both)), Some(EventAction::Rename));
    assert_eq!(
        classify(name(RenameMode::Other)),
        Some(EventAction::RenameUnpaired)
    );
    assert_eq!(classify(EventKind::Any), None);
    assert_eq!(classify(EventKind::Other), None);
    assert_eq!(classify(EventKind::Modify(ModifyKind::Other)), None);
    assert_eq!(
        classify(EventKind::Access(AccessKind::Close(AccessMode::Read))),
        None
    );
    assert_eq!(
        classify(EventKind::Access(AccessKind::Open(AccessMode::Write))),
        None
    );
}

#[test]
fn a_window_holds_what_its_events_ask_for() {
    let overflow = Event {
        kind: EventKind::Other,
        rescan: true,
        paths: vec![],
    };
    let w = close_window(ROOT, &vec![Err("lost".into()), Ok(overflow)]);
    assert!(w.rescan);
    assert!(w.batch.is_none());
    let w = close_window(
        ROOT,
        &vec![
            Ok(ev(EventKind::Remove, &["/v/a.md"])),
            Ok(ev(EventKind::Create, &["/v/a.md"])),
        ],
    );
    assert!(!w.rescan);
    let batch = w.batch.unwrap();
    assert_eq!(batch.upserts, vec!["a.md"]);
    assert!(batch.deletes.is_empty());
    assert_eq!(batch.delete_trees, vec!["a.md"]);
}

#[test]
fn relative_paths_lead_back_to_the_file() {
    assert_eq!(absolute_path(ROOT, "a/b.md"), b"/v/a/b.md".to_vec());
    assert_eq!(absolute_path(b"/v/", "a.md"), b"/v/a.md".to_vec());
}

#[test]
fn files_that_are_passed_over_are_named() {
    let mut batch = empty_batch();
    batch.upserts = vec![
        ReadUpsert {
            path: "bad.md".into(),
            read: Ok(FileRead {
                raw_bytes: b"---\n:: :: ::\n---\n".to_vec(),
                modified: Instant::from_timestamp(0, 0).unwrap(),
            }),
        },
        ReadUpsert {
            path: "gone.md".into(),
            read: Err(ReadFailure {
                message: "no such file".into(),
                not_found: true,
            }),
        },
        ReadUpsert {
            path: "locked.md".into(),
            read: Err(ReadFailure {
                message: "denied".into(),
                not_found: false,
            }),
        },
    ];
    let mut tree = walk(&[
        ("d/a.md", "A\n"),
        ("d/bad.md", "---\n:: :: ::\n---\n"),
    ]);
    tree.push(WalkItem::Failed {
        path: b"/v/d/sub".to_vec(),
        message: "denied".into(),
    });
    batch.upsert_trees = vec![WalkedTree {
        dir: "d".into(),
        walk: tree,
    }];
    let built = build_index_batch_audit(ROOT, batch);
    let named = |issues: &[ScanIssue]| {
        issues
            .iter()
            .map(|i| String::from_utf8(i.path.clone()).unwrap())
            .collect::<Vec<_>>()
    };
    assert_eq!(named(&built.failed), vec!["/v/bad.md", "/v/locked.md"]);
    assert_eq!(built.failed[1].kind.message(), "io: denied");
    assert_eq!(named(&built.walked), vec!["/v/d/bad.md", "/v/d/sub"]);
    assert_eq!(built.batch.deletes, vec!["gone.md"]);
    assert_eq!(built.batch.delete_prefixes, vec!["d"]);
    assert_eq!(built.batch.upserts.len(), 1);
    assert_eq!(built.batch.upserts[0].path, "d/a.md");
}

#[test]
fn a_window_closes_when_it_has_been_open_long_enough() {
    assert_eq!(window_left(100, 100, 250), Some(250));
    assert_eq!(window_left(100, 349, 250), Some(1));
    assert_eq!(window_left(100, 350, 250), None);
    assert_eq!(window_left(100, 1000, 250), None);
    assert_eq!(window_left(100, 50, 250), Some(300));
    assert_eq!(window_left(0, 0, 0), None);
}
