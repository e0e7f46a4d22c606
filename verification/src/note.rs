//! The note record and its mathematical view.

use vstd::prelude::*;

verus! {

/// A single note. Lives on disk as one `.md` file with a YAML frontmatter
/// header; `deleted_at` is vestigial (a deleted note is just an absent file).
#[derive(Debug)]
pub struct Note {
    pub id: String,
    pub title: String,
    pub body: String,
    /// Slash-delimited path = real subdirectory under the workspace. Empty = root.
    pub folder: String,
    /// Comma-separated tags, normalized lowercase on save.
    pub tags: String,
    pub created_at: i64,
    pub updated_at: i64,
    pub deleted_at: Option<i64>,
}

/// What a note is, as plain values.
pub struct NoteView {
    pub id: Seq<char>,
    pub title: Seq<char>,
    pub body: Seq<char>,
    pub folder: Seq<char>,
    pub tags: Seq<char>,
    pub created_at: int,
    pub updated_at: int,
    pub deleted_at: Option<int>,
}

impl View for Note {
    type V = NoteView;

    open spec fn view(&self) -> NoteView {
        NoteView {
            id: self.id@,
            title: self.title@,
            body: self.body@,
            folder: self.folder@,
            tags: self.tags@,
            created_at: self.created_at as int,
            updated_at: self.updated_at as int,
            deleted_at: match self.deleted_at {
                Some(t) => Some(t as int),
                None => None,
            },
        }
    }
}

/// The empty note: every text field empty, every timestamp zero.
pub open spec fn blank_view() -> NoteView {
    NoteView {
        id: Seq::empty(),
        title: Seq::empty(),
        body: Seq::empty(),
        folder: Seq::empty(),
        tags: Seq::empty(),
        created_at: 0,
        updated_at: 0,
        deleted_at: None,
    }
}

impl Default for Note {
    fn default() -> (n: Note)
        ensures
            n@ == blank_view(),
    {
        Note {
            id: String::new(),
            title: String::new(),
            body: String::new(),
            folder: String::new(),
            tags: String::new(),
            created_at: 0,
            updated_at: 0,
            deleted_at: None,
        }
    }
}

impl Clone for Note {
    fn clone(&self) -> (n: Note)
        ensures
            n@ == self@,
    {
        Note {
            id: self.id.clone(),
            title: self.title.clone(),
            body: self.body.clone(),
            folder: self.folder.clone(),
            tags: self.tags.clone(),
            created_at: self.created_at,
            updated_at: self.updated_at,
            deleted_at: self.deleted_at,
        }
    }
}

} // verus!
