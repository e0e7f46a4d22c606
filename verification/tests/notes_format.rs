use stardeck::frontmatter::{note_from_file, read_front, read_note, render_note, split_frontmatter};
use stardeck::ident::{new_note, short_id};
use stardeck::note::Note;

fn sample() -> Note {
    Note {
        id: "abc".to_string(),
        title: "Hello World".to_string(),
        body: "line one\n\nline two".to_string(),
        folder: "work/notes".to_string(),
        tags: "a,b".to_string(),
        created_at: 5,
        updated_at: 7,
        deleted_at: None,
    }
}

#[test]
fn render_writes_header_then_body() {
    let text = render_note(&sample());
    assert_eq!(
        text,
        "---\nid: abc\ntitle: Hello World\ncreated: 5\nupdated: 7\ntags: a,b\n---\nline one\n\nline two"
    );
}

#[test]
fn render_writes_negative_and_large_timestamps() {
    let mut n = sample();
    n.created_at = -42;
    n.updated_at = i64::MIN;
    let text = render_note(&n);
    assert!(text.contains("created: -42\n"));
    assert!(text.contains("updated: -9223372036854775808\n"));
}

#[test]
fn note_file_round_trips() {
    let n = sample();
    let text = render_note(&n);
    let (got, adopted) = note_from_file(&text, "work/notes", Some("hello-world".to_string()), 99, "minted");
    assert!(!adopted);
    assert_eq!(got.id, "abc");
    assert_eq!(got.title, "Hello World");
    assert_eq!(got.body, "line one\n\nline two");
    assert_eq!(got.tags, "a,b");
    assert_eq!(got.folder, "work/notes");
    assert_eq!(got.created_at, 5);
    assert_eq!(got.updated_at, 7);
    assert_eq!(got.deleted_at, None);
}

#[test]
fn round_trip_folds_crlf_in_body() {
    let mut n = sample();
    n.body = "a\r\nb\rc".to_string();
    let text = render_note(&n);
    let (got, _) = note_from_file(&text, "", None, 1, "m");
    assert_eq!(got.body, "a\nb\rc");
}

#[test]
fn plain_file_is_adopted() {
    let raw = "just text\r\nmore";
    let (got, adopted) = note_from_file(raw, "inbox", Some("my-file".to_string()), 1234, "fresh-id");
    assert!(adopted);
    assert_eq!(got.id, "fresh-id");
    assert_eq!(got.title, "my-file");
    assert_eq!(got.body, "just text\nmore");
    assert_eq!(got.folder, "inbox");
    assert_eq!(got.tags, "");
    assert_eq!(got.created_at, 1234);
    assert_eq!(got.updated_at, 1234);
    let (got2, _) = note_from_file(raw, "", None, 1, "x");
    assert_eq!(got2.title, "untitled");
}

#[test]
fn read_note_mints_uuid_when_adopting() {
    let (got, adopted) = read_note("no header", "", None, 3);
    assert!(adopted);
    assert_eq!(got.id.len(), 36);
    assert_eq!(got.id.as_bytes()[14], b'4');
    let (kept, adopted2) = read_note(&render_note(&sample()), "", None, 3);
    assert!(!adopted2);
    assert_eq!(kept.id, "abc");
}

#[test]
fn header_parsing_details() {
    let raw = "---\ntitle: first\nid:  spaced id  \nnoise line\ntitle: Second: part\ncreated: +12\nupdated: junk\nother: x\n---\nbody";
    let (h, body) = read_front(raw);
    assert_eq!(h.id, "spaced id");
    assert_eq!(h.title, "Second: part");
    assert_eq!(h.created, 12);
    assert_eq!(h.updated, 0);
    assert_eq!(h.tags, "");
    assert_eq!(body, "body");
    let (got, _) = note_from_file(raw, "", None, 77, "m");
    assert_eq!(got.created_at, 12);
    assert_eq!(got.updated_at, 77);
}

#[test]
fn header_numbers_out_of_range_read_as_zero() {
    let raw = "---\nid: x\ncreated: 9223372036854775808\nupdated: -9223372036854775808\n---\n";
    let (h, body) = read_front(raw);
    assert_eq!(h.created, 0);
    assert_eq!(h.updated, i64::MIN);
    assert_eq!(body, "");
}

#[test]
fn split_frontmatter_cases() {
    assert_eq!(split_frontmatter("---\nid: x\n---\nbody"), ("id: x", "body"));
    assert_eq!(split_frontmatter("---\nid: x\nno close"), ("", "---\nid: x\nno close"));
    assert_eq!(split_frontmatter("plain"), ("", "plain"));
    assert_eq!(split_frontmatter("---\na\n---\nb\n---\nc"), ("a", "b\n---\nc"));
    assert_eq!(split_frontmatter("---\nü\n---\näb"), ("ü", "äb"));
}

#[test]
fn new_note_has_uuid_v4_id() {
    let n = new_note("2024-05-01", "journal", 1000);
    assert_eq!(n.title, "2024-05-01");
    assert_eq!(n.folder, "journal");
    assert_eq!(n.body, "");
    assert_eq!(n.tags, "");
    assert_eq!(n.created_at, 1000);
    assert_eq!(n.updated_at, 1000);
    let b = n.id.as_bytes();
    assert_eq!(b.len(), 36);
    for (i, c) in b.iter().enumerate() {
        if i == 8 || i == 13 || i == 18 || i == 23 {
            assert_eq!(*c, b'-');
        } else {
            assert!(c.is_ascii_hexdigit() && !c.is_ascii_uppercase());
        }
    }
    assert_eq!(b[14], b'4');
    assert!(matches!(b[19], b'8' | b'9' | b'a' | b'b'));
    let other = new_note("2024-05-01", "journal", 1000);
    assert_ne!(n.id, other.id);
}

#[test]
fn short_id_takes_eight_chars() {
    assert_eq!(short_id("abcdefghij"), "abcdefgh");
    assert_eq!(short_id("abc"), "abc");
    assert_eq!(short_id("ééééééééé"), "éééééééé");
}
