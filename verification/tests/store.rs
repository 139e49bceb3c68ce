use anwesen::dates::Instant;
use anwesen::sorted::SortedMap;
use anwesen::store::NoteStore;
use anwesen::vault::Note;

fn note(path: &str) -> Note {
    Note {
        path: path.into(),
        frontmatter: SortedMap::new(),
        body: String::new(),
        raw_bytes: b"hi".to_vec(),
        last_modified: Instant::from_timestamp(0, 0).unwrap(),
        etag: "\"abc\"".into(),
        size: 2,
    }
}

#[test]
fn replace_clears_previous() {
    let mut s = NoteStore::new();
    s.replace(vec![note("a.md"), note("b.md")]);
    assert_eq!(s.len(), 2);
    s.replace(vec![note("c.md")]);
    assert_eq!(s.len(), 1);
    assert!(s.get("a.md").is_none());
    assert!(s.get("c.md").is_some());
}

#[test]
fn apply_batch_deletes_then_upserts() {
    let mut s = NoteStore::new();
    s.replace(vec![note("a.md"), note("b.md")]);
    s.apply_batch(vec![note("c.md")], &vec!["a.md".to_string()]);
    assert_eq!(s.len(), 2);
    assert!(s.get("a.md").is_none());
    assert!(s.get("b.md").is_some());
    assert!(s.get("c.md").is_some());
}

#[test]
fn batch_keeps_a_path_that_it_deletes_and_adds() {
    let mut s = NoteStore::new();
    s.replace(vec![note("a.md")]);
    s.apply_batch(vec![note("a.md")], &vec!["a.md".to_string()]);
    assert!(s.get("a.md").is_some());
}

#[test]
fn store_upsert_replaces_by_path() {
    let mut s = NoteStore::new();
    s.upsert(note("a.md"));
    let mut n2 = note("a.md");
    n2.etag = "\"def\"".into();
    s.upsert(n2);
    assert_eq!(s.get("a.md").unwrap().etag, "\"def\"");
    assert_eq!(s.len(), 1);
}

#[test]
fn replace_keeps_the_later_of_two_notes_of_one_path() {
    let mut s = NoteStore::new();
    let mut later = note("a.md");
    later.body = "later".into();
    s.replace(vec![note("a.md"), later]);
    assert_eq!(s.len(), 1);
    assert_eq!(s.get("a.md").unwrap().body, "later");
}

#[test]
fn get_unknown_path_is_none() {
    let s = NoteStore::new();
    assert!(s.get("nope.md").is_none());
    assert!(s.is_empty());
}

#[test]
fn delete_drops_one_path_only() {
    let mut s = NoteStore::new();
    s.replace(vec![note("a.md"), note("b.md")]);
    s.delete("a.md");
    s.delete("never.md");
    assert_eq!(s.len(), 1);
    assert!(s.get("b.md").is_some());
}

#[test]
fn delete_tree_drops_what_lies_under_a_directory() {
    let mut s = NoteStore::new();
    s.replace(vec![
        note("dir.md"),
        note("dir.md/x.md"),
        note("dir.md/deep/y.md"),
        note("dir.mdx/z.md"),
    ]);
    s.delete_tree("dir.md");
    assert_eq!(s.len(), 2);
    assert!(s.get("dir.md").is_some());
    assert!(s.get("dir.mdx/z.md").is_some());
    s.delete("dir.md");
    assert_eq!(s.len(), 1);
}

#[test]
fn with_read_hands_out_the_notes_in_path_order() {
    let mut s = NoteStore::new();
    s.replace(vec![note("b.md"), note("a/z.md"), note("a.md")]);
    let paths: Vec<String> =
        s.with_read(|notes| (0..notes.len()).map(|i| notes.key_at(i).clone()).collect());
    assert_eq!(paths, vec!["a.md", "a/z.md", "b.md"]);
}

#[test]
fn only_a_whole_note_set_makes_a_store_loaded() {
    let mut store = NoteStore::new();
    assert!(!store.is_loaded());
    store.upsert(note("a.md"));
    store.delete("a.md");
    store.delete_tree("d");
    store.apply_batch(vec![note("b.md")], &vec![]);
    assert!(!store.is_loaded());
    store.replace(vec![]);
    assert!(store.is_loaded());
    store.delete("a.md");
    assert!(store.is_loaded());
}
