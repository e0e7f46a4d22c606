use stardeck::links::{backlinks, link_targets, relink_note, replace_link, saved_note, title_renamed, wiki_targets};
use stardeck::note::Note;
use stardeck::paths::{classify_entry, disk_folder, index_file_name, note_dir, note_file_name, slug, title_matches_path, EntryKind};

fn note(id: &str, title: &str, body: &str) -> Note {
    Note {
        id: id.to_string(),
        title: title.to_string(),
        body: body.to_string(),
        folder: String::new(),
        tags: String::new(),
        created_at: 1,
        updated_at: 2,
        deleted_at: None,
    }
}

#[test]
fn slug_examples() {
    assert_eq!(slug("Hello World"), "hello-world");
    assert_eq!(slug("  --Hi!!  there--  "), "hi-there");
    assert_eq!(slug("!!!"), "untitled");
    assert_eq!(slug(""), "untitled");
    assert_eq!(slug("Ünïcode 2024"), "n-code-2024");
    assert_eq!(slug(&slug("A  b__C")), slug("A  b__C"));
}

#[test]
fn note_dir_drops_empty_pieces() {
    assert_eq!(note_dir("/work//Meeting Notes/"), vec!["work".to_string(), "meeting-notes".to_string()]);
    assert!(note_dir("").is_empty());
    assert_eq!(disk_folder("work/notes"), "work/notes");
    assert_eq!(disk_folder("/Work/ Big Plans "), "work/big-plans");
}

#[test]
fn file_names() {
    assert_eq!(note_file_name("Hello World", "abcdef123456", false), "hello-world.md");
    assert_eq!(note_file_name("Hello World", "abcdef123456", true), "hello-world-abcdef12.md");
}

#[test]
fn path_fit_check() {
    let mut n = note("abcdef123456", "Hello World", "");
    n.folder = "work/notes".to_string();
    assert!(title_matches_path("hello-world", "work/notes", &n));
    assert!(title_matches_path("hello-world-abcdef12", "work/notes", &n));
    assert!(!title_matches_path("other", "work/notes", &n));
    assert!(!title_matches_path("hello-world", "work", &n));
}

#[test]
fn entry_classes() {
    assert_eq!(classify_entry(".git", true), EntryKind::Skip);
    assert_eq!(classify_entry(".hidden.md", false), EntryKind::Skip);
    assert_eq!(classify_entry("sub", true), EntryKind::Descend);
    assert_eq!(classify_entry("a.md", false), EntryKind::NoteFile);
    assert_eq!(classify_entry("a.md.tmp", false), EntryKind::Skip);
    assert_eq!(classify_entry("a.txt", false), EntryKind::Skip);
}

#[test]
fn index_name_is_sixteen_hex_digits() {
    assert_eq!(index_file_name(0xdeadbeef), "index-00000000deadbeef.db");
    assert_eq!(index_file_name(u64::MAX), "index-ffffffffffffffff.db");
}

#[test]
fn replace_link_rewrites_case_insensitively() {
    assert_eq!(
        replace_link("see [[Old Title]] and [[old title]].", "OLD title", "New"),
        Some("see [[New]] and [[New]].".to_string())
    );
    assert_eq!(replace_link("see [[Other]]", "Old", "New"), None);
    assert_eq!(replace_link("é [[ÖLD]] ü", "ÖLD", "x"), Some("é [[x]] ü".to_string()));
}

#[test]
fn wiki_target_extraction() {
    assert_eq!(
        wiki_targets("a [[ x ]] b [[\n]] [[]] [[y]] [[unterminated"),
        vec!["x".to_string(), "y".to_string()]
    );
    assert_eq!(
        link_targets("[[A]] [[a]] [[B]] [[b ]]"),
        vec!["A".to_string(), "B".to_string()]
    );
}

#[test]
fn backlink_filter() {
    let notes = vec![
        note("1", "A", "see [[Target]]"),
        note("2", "B", "[[target]]"),
        note("3", "C", "no link"),
    ];
    let got = backlinks(&notes, " target ", &Some("2".to_string()));
    assert_eq!(got.len(), 1);
    assert_eq!(got[0].id, "1");
    assert!(backlinks(&notes, "   ", &None).is_empty());
    assert_eq!(backlinks(&notes, "TARGET", &None).len(), 2);
}

#[test]
fn rename_cascade_pieces() {
    assert!(title_renamed("Old", "New"));
    assert!(!title_renamed("Old", "oLD"));
    assert!(!title_renamed("", "New"));
    let other = note("9", "Other", "links to [[Old]]");
    let got = relink_note(&other, "old", "New", 500).unwrap();
    assert_eq!(got.body, "links to [[New]]");
    assert_eq!(got.updated_at, 500);
    assert_eq!(got.created_at, 1);
    assert!(relink_note(&note("8", "x", "none"), "old", "New", 500).is_none());
    let saved = saved_note(&other, Some(10), 600);
    assert_eq!((saved.created_at, saved.updated_at), (10, 600));
    let fresh = saved_note(&other, None, 600);
    assert_eq!((fresh.created_at, fresh.updated_at), (600, 600));
}

#[test]
fn renamed_link_shows_in_new_backlinks() {
    let other = note("9", "Other", "see [[Old Name]] twice: [[old name]]");
    let moved = relink_note(&other, "Old Name", "Fresh", 7).unwrap();
    assert_eq!(moved.body, "see [[Fresh]] twice: [[Fresh]]");
    let back = backlinks(&vec![moved], "fresh", &Some("1".to_string()));
    assert_eq!(back.len(), 1);
    assert_eq!(back[0].id, "9");
}
