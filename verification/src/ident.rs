//! Note identity: random version-4 UUIDs in their hyphenated text form.

use vstd::prelude::*;
use crate::note::Note;
use crate::text::chars_of;

verus! {

pub open spec fn is_lower_hex(c: char) -> bool {
    ('0' <= c && c <= '9') || ('a' <= c && c <= 'f')
}

/// The hyphenated lowercase text of a version-4 (random) UUID:
/// `xxxxxxxx-xxxx-4xxx-Yxxx-xxxxxxxxxxxx`, `Y` one of `8 9 a b`.
pub open spec fn is_uuid_v4_text(s: Seq<char>) -> bool {
    &&& s.len() == 36
    &&& forall|i: int|
        0 <= i < 36 ==> if i == 8 || i == 13 || i == 18 || i == 23 {
            s[i] == '-'
        } else {
            is_lower_hex(#[trigger] s[i])
        }
    &&& s[14] == '4'
    &&& (s[19] == '8' || s[19] == '9' || s[19] == 'a' || s[19] == 'b')
}

/// Calls `uuid::Uuid::new_v4` and writes it with the crate's `Display`
/// (hyphenated lowercase hex). Claimed: the text has the v4 shape above, as
/// the crate's source sets the version nibble to 4 and the variant bits to
/// `10`. Which random value comes back is not stated; the crate panics if
/// the system's random source fails, which no argument here can rule out.
#[verifier::external_body]
fn new_uuid_text() -> (s: String)
    ensures
        is_uuid_v4_text(s@),
{
    uuid::Uuid::new_v4().to_string()
}

/// A fresh random note id.
pub fn fresh_id() -> (s: String)
    ensures
        is_uuid_v4_text(s@),
{
    new_uuid_text()
}

/// A new empty note titled `title` in `folder`, created and updated at `ts`,
/// with a fresh id (as for `[+ NEW]`, a daily journal or an unresolved link).
pub fn new_note(title: &str, folder: &str, ts: i64) -> (n: Note)
    ensures
        is_uuid_v4_text(n.id@),
        n.title@ == title@,
        n.folder@ == folder@,
        n.body@ == Seq::<char>::empty(),
        n.tags@ == Seq::<char>::empty(),
        n.created_at == ts,
        n.updated_at == ts,
        n.deleted_at is None,
{
    Note {
        id: fresh_id(),
        title: title.to_owned(),
        body: String::new(),
        folder: folder.to_owned(),
        tags: String::new(),
        created_at: ts,
        updated_at: ts,
        deleted_at: None,
    }
}

/// The first eight characters of an id, used to tell same-titled files apart.
pub open spec fn short_of(id: Seq<char>) -> Seq<char> {
    if id.len() <= 8 {
        id
    } else {
        id.take(8)
    }
}

pub fn short_id(id: &str) -> (r: String)
    ensures
        r@ == short_of(id@),
{
    let v = chars_of(id);
    let n: usize = if v.len() <= 8 {
        v.len()
    } else {
        8
    };
    let r = crate::text::string_of_range(&v, 0, n);
    assert(v@.subrange(0, n as int) =~= short_of(id@));
    r
}

} // verus!
