use stardeck::config::{configured_workspace, ViewMode};
use stardeck::editor::{EditorState, apply_md, capture_entry, compose_note, continue_list, display_title, list_continuation, md_wrap, task_summary, task_text, text_stats, ListEdit, MdCmd};
use stardeck::note::Note;
use stardeck::search::{fts_query, palette_matches};
use stardeck::tree::group_by_folder;
use stardeck::tags::{all_tags, filter_by_tag, inline_tags, normalize_tags, note_tags, split_tags};

fn note(id: &str, title: &str, folder: &str, tags: &str, body: &str) -> Note {
    Note {
        id: id.to_string(),
        title: title.to_string(),
        body: body.to_string(),
        folder: folder.to_string(),
        tags: tags.to_string(),
        created_at: 0,
        updated_at: 0,
        deleted_at: None,
    }
}

fn cont(prev: &str) -> Option<String> {
    match list_continuation(prev) {
        Some(ListEdit::Continue(s)) => Some(s),
        Some(ListEdit::ClearPrev) => Some("<clear>".to_string()),
        None => None,
    }
}

#[test]
fn fts_query_terms() {
    assert_eq!(fts_query("meet not"), Some("\"meet\"* \"not\"*".to_string()));
    assert_eq!(fts_query("Hello-World"), Some("\"hello\"* \"world\"*".to_string()));
    assert_eq!(fts_query("  ,, "), None);
    assert_eq!(fts_query(""), None);
}

#[test]
fn list_continuation_cases() {
    assert_eq!(cont("  - [x] done"), Some("  - [ ] ".to_string()));
    assert_eq!(cont("- [ ] todo"), Some("- [ ] ".to_string()));
    assert_eq!(cont("- "), Some("<clear>".to_string()));
    assert_eq!(cont("* item"), Some("* ".to_string()));
    assert_eq!(cont("+ item"), Some("+ ".to_string()));
    assert_eq!(cont("9. nine"), Some("10. ".to_string()));
    assert_eq!(cont("1.   "), Some("<clear>".to_string()));
    assert_eq!(cont("plain"), None);
    assert_eq!(cont("12.no space"), None);
    assert_eq!(cont("99999999999999999999. big"), Some("100000000000000000000. ".to_string()));
    assert_eq!(cont("18446744073709551615. x"), Some("18446744073709551616. ".to_string()));
    assert_eq!(cont("18446744073709551614. x"), Some("18446744073709551615. ".to_string()));
    assert_eq!(cont("007. x"), Some("8. ".to_string()));
    assert_eq!(cont("0. x"), Some("1. ".to_string()));
    assert_eq!(cont("1299. x"), Some("1300. ".to_string()));
    assert_eq!(cont("  000. "), Some("<clear>".to_string()));
}

#[test]
fn enter_continues_or_ends_lists() {
    assert_eq!(continue_list("- a\n", 4), Some(("- a\n- ".to_string(), 6)));
    assert_eq!(continue_list("x\n- \n", 5), Some(("x\n\n".to_string(), 3)));
    assert_eq!(continue_list("text\n", 5), None);
    assert_eq!(continue_list("- a", 3), None);
    assert_eq!(continue_list("- a\n", 9), None);
}

#[test]
fn task_lines() {
    assert_eq!(task_text("- [ ] buy milk", false), Some("buy milk"));
    assert_eq!(task_text("* [x] done", true), Some("done"));
    assert_eq!(task_text("+ [X]no space", true), Some("no space"));
    assert_eq!(task_text("- [x] done", false), None);
    assert_eq!(task_text("- [ ]", false), Some(""));
    assert_eq!(task_text("- [é] x", false), None);
    assert_eq!(task_text("-[ ] x", false), None);
    let (open, done) = task_summary("- [ ] a\n  - [x] b\n* [ ] c\r\ntext\n");
    assert_eq!(open, vec!["a".to_string(), "c".to_string()]);
    assert_eq!(done, 1);
}

#[test]
fn stats() {
    assert_eq!(text_stats("hello  world\nfoo"), (3, 16, 1));
    assert_eq!(text_stats(""), (0, 0, 1));
    let long = "w ".repeat(450);
    assert_eq!(text_stats(&long), (450, 900, 3));
    assert_eq!(text_stats(&"w ".repeat(400)).2, 2);
}

#[test]
fn capture_lines() {
    assert_eq!(capture_entry("line", "09:30", "  note  "), Some("line\n- 09:30 note\n".to_string()));
    assert_eq!(capture_entry("", "09:30", "x"), Some("- 09:30 x\n".to_string()));
    assert_eq!(capture_entry("a\n", "10:00", "y"), Some("a\n- 10:00 y\n".to_string()));
    assert_eq!(capture_entry("a", "10:00", "   "), None);
}

#[test]
fn wrap_selection() {
    let mut b = "hello world".to_string();
    md_wrap(&mut b, (6, 11), "**", "**", "bold");
    assert_eq!(b, "hello **world**");
    let mut b = "hello world".to_string();
    md_wrap(&mut b, (11, 6), "*", "*", "italic");
    assert_eq!(b, "hello *world*");
    let mut b = "hello world".to_string();
    md_wrap(&mut b, (5, 5), "`", "`", "code");
    assert_eq!(b, "hello`code` world");
    let mut b = "héllo".to_string();
    md_wrap(&mut b, (100, 200), "[", "](url)", "text");
    assert_eq!(b, "héllo[text](url)");
    let mut b = "abc".to_string();
    apply_md(&mut b, None, MdCmd::Bold);
    assert_eq!(b, "abc**bold**");
    let mut b = "abc".to_string();
    apply_md(&mut b, Some((0, 1)), MdCmd::Link);
    assert_eq!(b, "[a](url)bc");
}

#[test]
fn tags() {
    assert_eq!(split_tags(" A, b ,,C "), vec!["a".to_string(), "b".to_string(), "c".to_string()]);
    assert_eq!(normalize_tags(" A, b ,,C "), "a, b, c");
    assert_eq!(normalize_tags(""), "");
    assert_eq!(split_tags(&normalize_tags("x, Y,  z")), split_tags("x, Y,  z"));
    assert!(split_tags("").is_empty());
    assert!(split_tags(" , ,").is_empty());
    let once = normalize_tags(" Work, ,IDEAS ,");
    assert_eq!(once, "work, ideas");
    assert_eq!(normalize_tags(&once), once);
    assert_eq!(
        inline_tags("#tag and (#Two) x#no # heading ##h #a/b-c_d"),
        vec!["tag".to_string(), "two".to_string(), "a/b-c_d".to_string()]
    );
    let n = note("1", "t", "", "a, b", "#b #c");
    assert_eq!(note_tags(&n), vec!["a".to_string(), "b".to_string(), "c".to_string()]);
    let notes = vec![
        note("1", "x", "", "zeta", "#alpha"),
        note("2", "y", "", "alpha, mid", ""),
    ];
    assert_eq!(all_tags(&notes), vec!["alpha".to_string(), "mid".to_string(), "zeta".to_string()]);
    assert_eq!(filter_by_tag(&notes, &Some("mid".to_string())).len(), 1);
    assert_eq!(filter_by_tag(&notes, &Some("alpha".to_string())).len(), 2);
    assert_eq!(filter_by_tag(&notes, &None).len(), 2);
}

#[test]
fn palette() {
    let mut notes = Vec::new();
    for i in 0..60 {
        notes.push(note(&i.to_string(), &format!("Note {i}"), "work", "", ""));
    }
    notes.push(note("x", "Groceries", "home", "Shopping", ""));
    assert_eq!(palette_matches(&notes, "").len(), 50);
    let hits = palette_matches(&notes, "SHOP");
    assert_eq!(hits.len(), 1);
    assert_eq!(hits[0].id, "x");
    assert_eq!(palette_matches(&notes, "HOME").len(), 1);
    assert_eq!(palette_matches(&notes, "note 5").len(), 11);
}

#[test]
fn compose_and_display() {
    let n = compose_note("id1".to_string(), "T", "B", "  /work/notes/  ", "X, y");
    assert_eq!(n.folder, "work/notes");
    assert_eq!(n.tags, "x, y");
    assert_eq!(n.title, "T");
    assert_eq!(display_title("  "), "untitled");
    assert_eq!(display_title("Hi"), "Hi");
}

#[test]
fn config_bits() {
    assert_eq!(configured_workspace("  /x  "), Some("/x".to_string()));
    assert_eq!(configured_workspace("   "), None);
    assert!(ViewMode::Split.shows_editor() && ViewMode::Split.shows_preview());
    assert!(ViewMode::Markdown.shows_editor() && !ViewMode::Markdown.shows_preview());
    assert!(!ViewMode::Preview.shows_editor() && ViewMode::Preview.shows_preview());
    assert_eq!(ViewMode::default(), ViewMode::Split);
}

#[test]
fn tree_groups_by_folder() {
    let notes = vec![
        note("1", "a", "b", "", ""),
        note("2", "b", "", "", ""),
        note("3", "c", "a", "", ""),
        note("4", "d", "b", "", ""),
    ];
    let groups = group_by_folder(&notes);
    let keys: Vec<&str> = groups.iter().map(|g| g.folder.as_str()).collect();
    assert_eq!(keys, vec!["", "a", "b"]);
    let ids: Vec<&str> = groups[2].notes.iter().map(|n| n.id.as_str()).collect();
    assert_eq!(ids, vec!["1", "4"]);
    assert!(group_by_folder(&Vec::new()).is_empty());
}

#[test]
fn editor_state_flush_decisions() {
    let mut ed = EditorState::new();
    assert!(ed.pending_save().is_none());
    ed.touch();
    assert!(ed.pending_save().is_none());
    let n = note("id7", "Title", " /dir/ ", "B, a", "body");
    ed.load(&n);
    assert!(ed.is_selected("id7"));
    assert!(!ed.dirty);
    assert!(ed.pending_save().is_none());
    ed.body.push_str(" more");
    ed.touch();
    let p = ed.pending_save().unwrap();
    assert_eq!(p.id, "id7");
    assert_eq!(p.body, "body more");
    assert_eq!(p.folder, "dir");
    assert_eq!(p.tags, "b, a");
    ed.mark_saved();
    assert!(ed.pending_save().is_none());
    ed.clear();
    assert!(!ed.is_selected("id7"));
    assert_eq!(ed.title, "");
}
