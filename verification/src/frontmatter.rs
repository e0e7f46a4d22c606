//! The on-disk note format: a `---` fenced header of `key: value` lines
//! (`id`, `title`, `created`, `updated`, `tags`) followed by the markdown body.

use vstd::prelude::*;
use vstd::string::StrSliceExecFns;
use crate::note::{Note, NoteView};
use crate::number::{
    dec_int, dec_nat, parse_int_or_zero, parse_i64, push_i64, lemma_parse_dec, lemma_dec_nat,
};
use crate::text::is_digit;
use crate::ident::{fresh_id, is_uuid_v4_text};
use crate::text::{
    find_from, lemma_find_from, lemma_find_shift, lemma_find_skip, lemma_find_first, occurs_at,
    trim, trim_start, lead_ws, trail_ws, is_ws, lacks, contains_seq, shift, lemma_lead_ws,
    lemma_trail_ws, lemma_lead_ws_unique, lemma_trail_ws_unique, find_exec, occurs_at_exec,
    trim_range, chars_of, string_of, string_of_range, push_range, push_all,
};

verus! {

pub open spec fn nl() -> Seq<char> {
    seq!['\n']
}

/// The `---` fence line.
pub open spec fn fence() -> Seq<char> {
    seq!['-', '-', '-', '\n']
}

/// A newline followed by the fence line: where the header ends.
pub open spec fn close_fence() -> Seq<char> {
    seq!['\n', '-', '-', '-', '\n']
}

pub open spec fn colon() -> Seq<char> {
    seq![':']
}

pub open spec fn key_id() -> Seq<char> {
    seq!['i', 'd']
}

pub open spec fn key_title() -> Seq<char> {
    seq!['t', 'i', 't', 'l', 'e']
}

pub open spec fn key_created() -> Seq<char> {
    seq!['c', 'r', 'e', 'a', 't', 'e', 'd']
}

pub open spec fn key_updated() -> Seq<char> {
    seq!['u', 'p', 'd', 'a', 't', 'e', 'd']
}

pub open spec fn key_tags() -> Seq<char> {
    seq!['t', 'a', 'g', 's']
}

pub open spec fn untitled() -> Seq<char> {
    seq!['u', 'n', 't', 'i', 't', 'l', 'e', 'd']
}

/// `str::replace("\r\n", "\n")`: left-to-right, non-overlapping.
pub open spec fn crlf_to_lf(s: Seq<char>) -> Seq<char>
    decreases s.len(),
{
    if s.len() == 0 {
        s
    } else if s.len() >= 2 && s[0] == '\r' && s[1] == '\n' {
        seq!['\n'] + crlf_to_lf(s.skip(2))
    } else {
        seq![s[0]] + crlf_to_lf(s.skip(1))
    }
}

/// Splits a leading `---\n ... \n---\n` block off the rest: (header, body).
/// Without a complete header the header is empty and the body is all of `raw`.
pub open spec fn split_front(raw: Seq<char>) -> (Seq<char>, Seq<char>) {
    if occurs_at(raw, 0, fence()) {
        let rest = raw.skip(4);
        match find_from(rest, 0, close_fence()) {
            Some(e) => (rest.take(e), rest.skip(e + 5)),
            None => (Seq::empty(), raw),
        }
    } else {
        (Seq::empty(), raw)
    }
}

/// A line without its `\r` terminator half.
pub open spec fn strip_cr(l: Seq<char>) -> Seq<char> {
    if l.len() > 0 && l.last() == '\r' {
        l.drop_last()
    } else {
        l
    }
}

/// `str::lines`: split at `\n` (dropping a `\r` before it); a final line
/// ending adds no empty line.
pub open spec fn lines(s: Seq<char>) -> Seq<Seq<char>>
    decreases s.len(),
{
    if s.len() == 0 {
        Seq::empty()
    } else {
        match find_from(s, 0, nl()) {
            Some(k) => {
                proof {
                    lemma_find_from(s, 0, nl());
                }
                seq![strip_cr(s.take(k))] + lines(s.skip(k + 1))
            },
            None => seq![s],
        }
    }
}

/// The header fields as plain values.
pub struct FrontView {
    pub id: Seq<char>,
    pub title: Seq<char>,
    pub created: int,
    pub updated: int,
    pub tags: Seq<char>,
}

pub open spec fn empty_front() -> FrontView {
    FrontView {
        id: Seq::empty(),
        title: Seq::empty(),
        created: 0,
        updated: 0,
        tags: Seq::empty(),
    }
}

/// One header line: `key: value` split at the first `:`, both sides trimmed.
/// Known keys set their field (a later line wins); other lines are ignored.
pub open spec fn apply_line(h: FrontView, line: Seq<char>) -> FrontView {
    match find_from(line, 0, colon()) {
        None => h,
        Some(k) => {
            let key = trim(line.take(k));
            let v = trim(line.skip(k + 1));
            if key == key_id() {
                FrontView { id: v, ..h }
            } else if key == key_title() {
                FrontView { title: v, ..h }
            } else if key == key_created() {
                FrontView { created: parse_int_or_zero(v), ..h }
            } else if key == key_updated() {
                FrontView { updated: parse_int_or_zero(v), ..h }
            } else if key == key_tags() {
                FrontView { tags: v, ..h }
            } else {
                h
            }
        },
    }
}

/// The header fields that a run of header lines sets.
pub open spec fn header_of(ls: Seq<Seq<char>>) -> FrontView
    decreases ls.len(),
{
    if ls.len() == 0 {
        empty_front()
    } else {
        apply_line(header_of(ls.drop_last()), ls.last())
    }
}

/// What a note file's text holds: its header fields and its body, after
/// CRLF line endings are folded to LF.
pub open spec fn front_of(raw: Seq<char>) -> (FrontView, Seq<char>) {
    let t = crlf_to_lf(raw);
    let (fm, body) = split_front(t);
    (header_of(lines(fm)), body)
}

/// The header fields of a note file.
pub struct FrontMatter {
    pub id: String,
    pub title: String,
    pub created: i64,
    pub updated: i64,
    pub tags: String,
}

impl View for FrontMatter {
    type V = FrontView;

    open spec fn view(&self) -> FrontView {
        FrontView {
            id: self.id@,
            title: self.title@,
            created: self.created as int,
            updated: self.updated as int,
            tags: self.tags@,
        }
    }
}

/// Folds every `\r\n` to `\n`.
pub fn normalize_newlines(v: &Vec<char>) -> (r: Vec<char>)
    ensures
        r@ == crlf_to_lf(v@),
{
    let mut out: Vec<char> = Vec::new();
    let mut i: usize = 0;
    assert(v@.skip(0) =~= v@);
    assert(out@ + crlf_to_lf(v@) =~= crlf_to_lf(v@));
    while i < v.len()
        invariant
            i <= v.len(),
            crlf_to_lf(v@) == out@ + crlf_to_lf(v@.skip(i as int)),
        decreases v.len() - i,
    {
        let ghost rest = v@.skip(i as int);
        if i + 1 < v.len() && v[i] == '\r' && v[i + 1] == '\n' {
            out.push('\n');
            assert(rest.skip(2) =~= v@.skip(i + 2));
            i = i + 2;
        } else {
            out.push(v[i]);
            assert(rest.skip(1) =~= v@.skip(i + 1));
            i = i + 1;
        }
    }
    assert(v@.skip(i as int) =~= Seq::<char>::empty());
    out
}

/// Splits a leading `---\n ... \n---\n` block off the rest. Returns
/// (frontmatter, body); frontmatter is empty when there is no header.
pub fn split_frontmatter(raw: &str) -> (r: (&str, &str))
    ensures
        (r.0@, r.1@) == split_front(raw@),
{
    let v = chars_of(raw);
    let (a, b, c) = front_bounds(&v);
    if a == 0 {
        assert(raw@.subrange(0, 0) =~= Seq::<char>::empty());
        assert(raw@.subrange(0, v.len() as int) =~= raw@);
        (raw.substring_char(0, 0), raw.substring_char(0, v.len()))
    } else {
        (raw.substring_char(a, b), raw.substring_char(c, v.len()))
    }
}

/// Where the header and body of `v` lie: `v[a..b]` is the header and
/// `v[c..]` the body, with `a == 0` when there is no header (body is all).
fn front_bounds(v: &Vec<char>) -> (r: (usize, usize, usize))
    ensures
        r.0 == 0 ==> split_front(v@) == (Seq::<char>::empty(), v@),
        r.0 != 0 ==> r.0 <= r.1 <= r.2 <= v.len() && split_front(v@) == (v@.subrange(
            r.0 as int,
            r.1 as int,
        ), v@.subrange(r.2 as int, v.len() as int)),
{
    let fence_v: Vec<char> = vec!['-', '-', '-', '\n'];
    let close_v: Vec<char> = vec!['\n', '-', '-', '-', '\n'];
    assert(fence_v@ =~= fence());
    assert(close_v@ =~= close_fence());
    if !occurs_at_exec(&v, 0, &fence_v) {
        return (0, 0, 0);
    }
    proof {
        assert(v@ =~= v@.take(4) + v@.skip(4));
        lemma_find_shift(v@.take(4), v@.skip(4), 0, close_fence());
        lemma_find_from(v@, 4, close_fence());
    }
    match find_exec(&v, 4, &close_v) {
        None => (0, 0, 0),
        Some(p) => {
            proof {
                let rest = v@.skip(4);
                assert(rest.take(p - 4) =~= v@.subrange(4, p as int));
                assert(rest.skip(p - 4 + 5) =~= v@.subrange(p + 5, v.len() as int));
            }
            (4, p, p + 5)
        },
    }
}

/// `v[a..b] == pat`.
fn range_is(v: &Vec<char>, a: usize, b: usize, pat: &Vec<char>) -> (r: bool)
    requires
        a <= b <= v.len(),
    ensures
        r == (v@.subrange(a as int, b as int) == pat@),
{
    if b - a != pat.len() {
        return false;
    }
    occurs_at_exec(v, a, pat)
}


/// Which known key `k` is: 1 id, 2 title, 3 created, 4 updated, 5 tags, 0 none.
pub open spec fn key_kind(k: Seq<char>) -> u8 {
    if k == key_id() {
        1
    } else if k == key_title() {
        2
    } else if k == key_created() {
        3
    } else if k == key_updated() {
        4
    } else if k == key_tags() {
        5
    } else {
        0
    }
}

proof fn lemma_apply_line_kind(h: FrontView, line: Seq<char>)
    ensures
        apply_line(h, line) == (match find_from(line, 0, colon()) {
            None => h,
            Some(k) => {
                let kind = key_kind(trim(line.take(k)));
                let v = trim(line.skip(k + 1));
                if kind == 1 {
                    FrontView { id: v, ..h }
                } else if kind == 2 {
                    FrontView { title: v, ..h }
                } else if kind == 3 {
                    FrontView { created: parse_int_or_zero(v), ..h }
                } else if kind == 4 {
                    FrontView { updated: parse_int_or_zero(v), ..h }
                } else if kind == 5 {
                    FrontView { tags: v, ..h }
                } else {
                    h
                }
            },
        }),
{
}

/// A header line's key kind and the bounds of its trimmed value, or `None`
/// when the line has no `:`.
fn split_field(line: &Vec<char>) -> (r: Option<(u8, usize, usize)>)
    ensures
        match find_from(line@, 0, colon()) {
            None => r is None,
            Some(k) => r matches Some((kind, va, vb)) && va <= vb <= line.len() && kind
                == key_kind(trim(line@.take(k))) && line@.subrange(va as int, vb as int) == trim(
                line@.skip(k + 1),
            ),
        },
{
    let colon_v: Vec<char> = vec![':'];
    assert(colon_v@ =~= colon());
    let k = match find_exec(&line, 0, &colon_v) {
        None => {
            return None;
        },
        Some(k) => k,
    };
    proof {
        lemma_find_from(line@, 0, colon());
    }
    let (ka, kb) = trim_range(&line, 0, k);
    let (va, vb) = trim_range(&line, k + 1, line.len());
    proof {
        assert(line@.subrange(0, k as int) =~= line@.take(k as int));
        assert(line@.subrange(k + 1, line.len() as int) =~= line@.skip(k + 1));
    }
    let kind = key_kind_exec(&line, ka, kb);
    Some((kind, va, vb))
}

fn key_kind_exec(line: &Vec<char>, ka: usize, kb: usize) -> (r: u8)
    requires
        ka <= kb <= line.len(),
    ensures
        r == key_kind(line@.subrange(ka as int, kb as int)),
{
    let id_v: Vec<char> = vec!['i', 'd'];
    let title_v: Vec<char> = vec!['t', 'i', 't', 'l', 'e'];
    let created_v: Vec<char> = vec!['c', 'r', 'e', 'a', 't', 'e', 'd'];
    let updated_v: Vec<char> = vec!['u', 'p', 'd', 'a', 't', 'e', 'd'];
    let tags_v: Vec<char> = vec!['t', 'a', 'g', 's'];
    assert(id_v@ =~= key_id());
    assert(title_v@ =~= key_title());
    assert(created_v@ =~= key_created());
    assert(updated_v@ =~= key_updated());
    assert(tags_v@ =~= key_tags());
    if range_is(line, ka, kb, &id_v) {
        1
    } else if range_is(line, ka, kb, &title_v) {
        2
    } else if range_is(line, ka, kb, &created_v) {
        3
    } else if range_is(line, ka, kb, &updated_v) {
        4
    } else if range_is(line, ka, kb, &tags_v) {
        5
    } else {
        0
    }
}

impl FrontMatter {
    pub fn empty() -> (h: FrontMatter)
        ensures
            h@ == empty_front(),
    {
        FrontMatter {
            id: String::new(),
            title: String::new(),
            created: 0,
            updated: 0,
            tags: String::new(),
        }
    }

    /// Applies one header line, `v[a..b]`.
    fn apply(&mut self, v: &Vec<char>, a: usize, b: usize)
        requires
            a <= b <= v.len(),
        ensures
            final(self)@ == apply_line(old(self)@, v@.subrange(a as int, b as int)),
    {
        let mut line: Vec<char> = Vec::new();
        push_range(&mut line, v, a, b);
        assert(line@ =~= v@.subrange(a as int, b as int));
        proof {
            lemma_apply_line_kind(old(self)@, line@);
        }
        match split_field(&line) {
            None => {},
            Some((kind, va, vb)) => {
                if kind == 1 {
                    self.id = string_of_range(&line, va, vb);
                } else if kind == 2 {
                    self.title = string_of_range(&line, va, vb);
                } else if kind == 3 {
                    self.created = match parse_i64(&line, va, vb) {
                        Some(x) => x,
                        None => 0,
                    };
                } else if kind == 4 {
                    self.updated = match parse_i64(&line, va, vb) {
                        Some(x) => x,
                        None => 0,
                    };
                } else if kind == 5 {
                    self.tags = string_of_range(&line, va, vb);
                }
            },
        }
    }

    /// Parses the header block `fm` (without its fences).
    pub fn parse(fm: &Vec<char>) -> (h: FrontMatter)
        ensures
            h@ == header_of(lines(fm@)),
    {
        let bounds = line_bounds(fm);
        let ghost ls = lines(fm@);
        let mut h = FrontMatter::empty();
        let mut i: usize = 0;
        while i < bounds.len()
            invariant
                i <= bounds.len(),
                ls == lines(fm@),
                bounds.len() == ls.len(),
                forall|j: int|
                    0 <= j < bounds.len() ==> #[trigger] bounds[j].0 <= bounds[j].1 <= fm.len()
                        && fm@.subrange(bounds[j].0 as int, bounds[j].1 as int) == ls[j],
                h@ == header_of(ls.take(i as int)),
            decreases bounds.len() - i,
        {
            let (a, b) = bounds[i];
            proof {
                assert(ls.take(i + 1).drop_last() =~= ls.take(i as int));
                assert(ls.take(i + 1).last() == ls[i as int]);
            }
            h.apply(fm, a, b);
            i = i + 1;
        }
        assert(ls.take(bounds.len() as int) =~= ls);
        h
    }
}

/// Header fields and body of a note file's text.
pub fn read_front(raw: &str) -> (r: (FrontMatter, String))
    ensures
        (r.0@, r.1@) == front_of(raw@),
{
    let v0 = chars_of(raw);
    let v = normalize_newlines(&v0);
    let (a, b, c) = front_bounds(&v);
    if a == 0 {
        let fm: Vec<char> = Vec::new();
        let h = FrontMatter::parse(&fm);
        (h, string_of(&v))
    } else {
        let mut fm: Vec<char> = Vec::new();
        push_range(&mut fm, &v, a, b);
        let h = FrontMatter::parse(&fm);
        (h, string_of_range(&v, c, v.len()))
    }
}


/// One header line: `key: value` and its newline.
pub open spec fn field(key: Seq<char>, v: Seq<char>) -> Seq<char> {
    key + seq![':', ' '] + v + nl()
}

/// The file text a note is saved as: the fenced header, then the body.
pub open spec fn render(n: NoteView) -> Seq<char> {
    fence() + field(key_id(), n.id) + field(key_title(), n.title) + field(
        key_created(),
        dec_int(n.created_at),
    ) + field(key_updated(), dec_int(n.updated_at)) + field(key_tags(), n.tags) + fence()
        + n.body
}

fn push_field(out: &mut Vec<char>, key: &Vec<char>, v: &Vec<char>)
    ensures
        final(out)@ == old(out)@ + field(key@, v@),
{
    push_all(out, key);
    out.push(':');
    out.push(' ');
    push_all(out, v);
    out.push('\n');
    assert(final(out)@ =~= old(out)@ + field(key@, v@));
}

fn push_int_field(out: &mut Vec<char>, key: &Vec<char>, n: i64)
    ensures
        final(out)@ == old(out)@ + field(key@, dec_int(n as int)),
{
    let mut v: Vec<char> = Vec::new();
    push_i64(&mut v, n);
    assert(v@ =~= dec_int(n as int));
    push_field(out, key, &v);
}

fn push_fence(out: &mut Vec<char>)
    ensures
        final(out)@ == old(out)@ + fence(),
{
    out.push('-');
    out.push('-');
    out.push('-');
    out.push('\n');
    assert(final(out)@ =~= old(out)@ + fence());
}

/// Serializes a note to `<frontmatter>\n<body>`, the text its `.md` file holds.
pub fn render_note(n: &Note) -> (s: String)
    ensures
        s@ == render(n@),
{
    let mut out: Vec<char> = Vec::new();
    let id_v: Vec<char> = vec!['i', 'd'];
    let title_v: Vec<char> = vec!['t', 'i', 't', 'l', 'e'];
    let created_v: Vec<char> = vec!['c', 'r', 'e', 'a', 't', 'e', 'd'];
    let updated_v: Vec<char> = vec!['u', 'p', 'd', 'a', 't', 'e', 'd'];
    let tags_v: Vec<char> = vec!['t', 'a', 'g', 's'];
    assert(id_v@ =~= key_id());
    assert(title_v@ =~= key_title());
    assert(created_v@ =~= key_created());
    assert(updated_v@ =~= key_updated());
    assert(tags_v@ =~= key_tags());
    push_fence(&mut out);
    push_field(&mut out, &id_v, &chars_of(n.id.as_str()));
    push_field(&mut out, &title_v, &chars_of(n.title.as_str()));
    push_int_field(&mut out, &created_v, n.created_at);
    push_int_field(&mut out, &updated_v, n.updated_at);
    push_field(&mut out, &tags_v, &chars_of(n.tags.as_str()));
    push_fence(&mut out);
    push_all(&mut out, &chars_of(n.body.as_str()));
    string_of(&out)
}

pub open spec fn opt_view(o: Option<String>) -> Option<Seq<char>> {
    match o {
        Some(s) => Some(s@),
        None => None,
    }
}

/// The note a file holds. The header's title wins (it keeps casing and
/// punctuation); without one the file name (`stem`) stands in, else
/// `untitled`. A missing or zero timestamp falls back to the file's mtime.
/// A header without an id means the note is adopted under `minted`.
pub open spec fn file_note(
    front: FrontView,
    body: Seq<char>,
    folder: Seq<char>,
    stem: Option<Seq<char>>,
    mtime: int,
    minted: Seq<char>,
) -> NoteView {
    NoteView {
        id: if front.id.len() == 0 {
            minted
        } else {
            front.id
        },
        title: if front.title.len() > 0 {
            front.title
        } else {
            match stem {
                Some(s) => s,
                None => untitled(),
            }
        },
        body: body,
        folder: folder,
        tags: front.tags,
        created_at: if front.created == 0 {
            mtime
        } else {
            front.created
        },
        updated_at: if front.updated == 0 {
            mtime
        } else {
            front.updated
        },
        deleted_at: None,
    }
}

/// The note a file's text holds and whether it must be adopted (its header
/// had no id), given the note's folder (its directory under the workspace,
/// `/`-joined), file stem, mtime, and the id to adopt it under.
pub open spec fn text_note(
    raw: Seq<char>,
    folder: Seq<char>,
    stem: Option<Seq<char>>,
    mtime: int,
    minted: Seq<char>,
) -> (NoteView, bool) {
    let (front, body) = front_of(raw);
    (file_note(front, body, folder, stem, mtime, minted), front.id.len() == 0)
}

fn untitled_string() -> (s: String)
    ensures
        s@ == untitled(),
{
    let v: Vec<char> = vec!['u', 'n', 't', 'i', 't', 'l', 'e', 'd'];
    assert(v@ =~= untitled());
    string_of(&v)
}

/// Parses a `.md` file's text into a note; `true` when the file had no usable
/// frontmatter id and the note takes `minted` (the caller writes it back).
pub fn note_from_file(raw: &str, folder: &str, stem: Option<String>, mtime: i64, minted: &str) -> (r: (
    Note,
    bool,
))
    ensures
        (r.0@, r.1) == text_note(raw@, folder@, opt_view(stem), mtime as int, minted@),
{
    let (front, body) = read_front(raw);
    assemble(front, body, folder, stem, mtime, minted.to_owned())
}

fn assemble(front: FrontMatter, body: String, folder: &str, stem: Option<String>, mtime: i64, minted: String) -> (r: (Note, bool))
    ensures
        r.1 == (front.id@.len() == 0),
        r.0@ == file_note(front@, body@, folder@, opt_view(stem), mtime as int, minted@),
{
    let adopted = front.id.as_str().is_empty();
    let id = if adopted {
        minted
    } else {
        front.id
    };
    let title = if !front.title.as_str().is_empty() {
        front.title
    } else {
        match stem {
            Some(s) => s,
            None => untitled_string(),
        }
    };
    let created_at = if front.created == 0 {
        mtime
    } else {
        front.created
    };
    let updated_at = if front.updated == 0 {
        mtime
    } else {
        front.updated
    };
    (
        Note {
            id,
            title,
            body,
            folder: folder.to_owned(),
            tags: front.tags,
            created_at,
            updated_at,
            deleted_at: None,
        },
        adopted,
    )
}

/// Parses a `.md` file's text into a note, minting a fresh random id when the
/// header has none (the `bool` result is then `true`).
pub fn read_note(raw: &str, folder: &str, stem: Option<String>, mtime: i64) -> (r: (Note, bool))
    ensures
        (r.0@, r.1) == text_note(raw@, folder@, opt_view(stem), mtime as int, r.0.id@),
        r.1 ==> is_uuid_v4_text(r.0.id@),
{
    let (front, body) = read_front(raw);
    let minted = if front.id.as_str().is_empty() {
        fresh_id()
    } else {
        String::new()
    };
    assemble(front, body, folder, stem, mtime, minted)
}


// ---------------------------------------------------------------------------
// Saving and reloading a note
// ---------------------------------------------------------------------------

/// A header value that survives a save and reload unchanged: a single line
/// without leading or trailing whitespace.
pub open spec fn header_safe(s: Seq<char>) -> bool {
    lacks(s, '\n') && trim(s) == s
}

/// A key of lowercase ASCII letters.
pub open spec fn plain_key(k: Seq<char>) -> bool {
    k.len() > 0 && forall|i: int| 0 <= i < k.len() ==> 'a' <= #[trigger] k[i] && k[i] <= 'z'
}

proof fn lemma_keys()
    ensures
        plain_key(key_id()),
        plain_key(key_title()),
        plain_key(key_created()),
        plain_key(key_updated()),
        plain_key(key_tags()),
        key_kind(key_id()) == 1,
        key_kind(key_title()) == 2,
        key_kind(key_created()) == 3,
        key_kind(key_updated()) == 4,
        key_kind(key_tags()) == 5,
{
    assert(key_id() != key_title());
    assert(key_title() != key_id());
    assert(key_created() != key_id());
    assert(key_created() != key_title());
    assert(key_updated() != key_id());
    assert(key_updated() != key_title());
    assert(key_updated() != key_created()) by {
        assert(key_updated()[0] != key_created()[0]);
    }
    assert(key_tags() != key_id());
    assert(key_tags() != key_title()) by {
        assert(key_tags().len() != key_title().len());
    }
    assert(key_tags() != key_created());
    assert(key_tags() != key_updated());
}

proof fn lemma_crlf_no_nl(s: Seq<char>)
    requires
        lacks(s, '\n'),
    ensures
        crlf_to_lf(s) == s,
    decreases s.len(),
{
    if s.len() > 0 {
        let t = s.skip(1);
        assert forall|i: int| 0 <= i < t.len() implies t[i] != '\n' by {
            assert(t[i] == s[i + 1]);
        }
        lemma_crlf_no_nl(t);
        assert(seq![s[0]] + t =~= s);
    }
}

proof fn lemma_crlf_no_cr(s: Seq<char>)
    requires
        lacks(s, '\r'),
    ensures
        crlf_to_lf(s) == s,
    decreases s.len(),
{
    if s.len() > 0 {
        let t = s.skip(1);
        assert forall|i: int| 0 <= i < t.len() implies t[i] != '\r' by {
            assert(t[i] == s[i + 1]);
        }
        lemma_crlf_no_cr(t);
        assert(seq![s[0]] + t =~= s);
    }
}

/// Folding CRLF distributes over a split that does not cut a `\r\n` pair.
proof fn lemma_crlf_append(a: Seq<char>, b: Seq<char>)
    requires
        a.len() == 0 || a.last() != '\r',
    ensures
        crlf_to_lf(a + b) == crlf_to_lf(a) + crlf_to_lf(b),
    decreases a.len(),
{
    if a.len() == 0 {
        assert(a + b =~= b);
        assert(crlf_to_lf(a) =~= Seq::<char>::empty());
        assert(Seq::<char>::empty() + crlf_to_lf(b) =~= crlf_to_lf(b));
    } else if a.len() >= 2 && a[0] == '\r' && a[1] == '\n' {
        let a2 = a.skip(2);
        assert((a + b).skip(2) =~= a2 + b);
        if a2.len() > 0 {
            assert(a2.last() == a.last());
        }
        lemma_crlf_append(a2, b);
        assert((a + b)[0] == '\r' && (a + b)[1] == '\n');
        assert(seq!['\n'] + (crlf_to_lf(a2) + crlf_to_lf(b)) =~= (seq!['\n'] + crlf_to_lf(a2))
            + crlf_to_lf(b));
    } else {
        let a1 = a.skip(1);
        assert((a + b).skip(1) =~= a1 + b);
        if a1.len() > 0 {
            assert(a1.last() == a.last());
        }
        lemma_crlf_append(a1, b);
        if a.len() == 1 {
            assert(a[0] != '\r');
        }
        assert(!((a + b).len() >= 2 && (a + b)[0] == '\r' && (a + b)[1] == '\n'));
        assert(seq![a[0]] + (crlf_to_lf(a1) + crlf_to_lf(b)) =~= (seq![a[0]] + crlf_to_lf(a1))
            + crlf_to_lf(b));
    }
}

/// A text without a `\r\n` pair is left as it is.
pub proof fn lemma_crlf_identity(s: Seq<char>)
    requires
        !contains_seq(s, seq!['\r', '\n']),
    ensures
        crlf_to_lf(s) == s,
    decreases s.len(),
{
    if s.len() > 0 {
        let t = s.skip(1);
        if s.len() >= 2 && s[0] == '\r' && s[1] == '\n' {
            assert(s.subrange(0, 2) =~= seq!['\r', '\n']);
            assert(occurs_at(s, 0, seq!['\r', '\n']));
        }
        assert forall|j: int| !occurs_at(t, j, seq!['\r', '\n']) by {
            if occurs_at(t, j, seq!['\r', '\n']) {
                assert(s.subrange(j + 1, j + 3) =~= t.subrange(j, j + 2));
                assert(occurs_at(s, j + 1, seq!['\r', '\n']));
            }
        }
        lemma_crlf_identity(t);
        assert(seq![s[0]] + t =~= s);
    }
}

proof fn lemma_trim_identity(s: Seq<char>)
    requires
        forall|i: int| 0 <= i < s.len() ==> !is_ws(#[trigger] s[i]),
    ensures
        trim(s) == s,
{
    lemma_lead_ws_unique(s, 0);
    assert(s.skip(0) =~= s);
    lemma_trail_ws_unique(s, 0);
    assert(s.take(s.len() as int) =~= s);
}

proof fn lemma_trim_space(v: Seq<char>)
    ensures
        trim(seq![' '] + v) == trim(v),
{
    let w = seq![' '] + v;
    assert(w.drop_first() =~= v);
    assert(lead_ws(w) == 1 + lead_ws(v));
    lemma_lead_ws(v);
    assert(w.skip(lead_ws(w) as int) =~= v.skip(lead_ws(v) as int));
}

/// The ends of a trimmed, non-empty text are not whitespace.
proof fn lemma_trimmed_ends(v: Seq<char>)
    requires
        trim(v) == v,
        v.len() > 0,
    ensures
        !is_ws(v[0]),
        !is_ws(v.last()),
{
    lemma_lead_ws(v);
    let t = trim_start(v);
    lemma_trail_ws(t);
    if lead_ws(v) > 0 {
        assert(trim(v).len() < v.len());
    }
    assert(t =~= v.skip(0));
    if trail_ws(t) > 0 {
        assert(trim(v).len() < v.len());
    }
}

/// A field line without its newline: `key: v`.
pub open spec fn field_line(key: Seq<char>, v: Seq<char>) -> Seq<char> {
    key + seq![':', ' '] + v
}

proof fn lemma_field_line(key: Seq<char>, v: Seq<char>)
    requires
        plain_key(key),
        lacks(v, '\n'),
        v.len() == 0 || !is_ws(v.last()),
    ensures
        lacks(field_line(key, v), '\n'),
        field_line(key, v).last() != '\r',
        field_line(key, v)[0] != '-',
        field(key, v) == field_line(key, v) + nl(),
        strip_cr(field_line(key, v)) == field_line(key, v),
        crlf_to_lf(field(key, v)) == field(key, v),
{
    let l = field_line(key, v);
    assert forall|i: int| 0 <= i < l.len() implies l[i] != '\n' by {
        if i < key.len() {
            assert(l[i] == key[i]);
        } else if i >= key.len() + 2 {
            assert(l[i] == v[i - key.len() - 2]);
        }
    }
    if v.len() == 0 {
        assert(l.last() == ' ');
    } else {
        assert(l.last() == v.last());
    }
    assert(l[0] == key[0]);
    assert(field(key, v) =~= l + nl());
    lemma_crlf_no_nl(l);
    lemma_crlf_append(l, nl());
    lemma_crlf_no_cr(nl());
}

/// How a field line is read back.
proof fn lemma_apply_field(h: FrontView, key: Seq<char>, v: Seq<char>)
    requires
        plain_key(key),
    ensures
        apply_line(h, field_line(key, v)) == ({
            let kind = key_kind(key);
            let tv = trim(v);
            if kind == 1 {
                FrontView { id: tv, ..h }
            } else if kind == 2 {
                FrontView { title: tv, ..h }
            } else if kind == 3 {
                FrontView { created: parse_int_or_zero(tv), ..h }
            } else if kind == 4 {
                FrontView { updated: parse_int_or_zero(tv), ..h }
            } else if kind == 5 {
                FrontView { tags: tv, ..h }
            } else {
                h
            }
        }),
{
    let l = field_line(key, v);
    let k = key.len() as int;
    assert forall|j: int| 0 <= j < k implies !occurs_at(l, j, colon()) by {
        assert(l.subrange(j, j + 1)[0] == key[j]);
    }
    assert(l.subrange(k, k + 1) =~= colon());
    lemma_find_first(l, 0, k, colon());
    assert(l.take(k) =~= key);
    assert(l.skip(k + 1) =~= seq![' '] + v);
    lemma_trim_space(v);
    assert forall|i: int| 0 <= i < key.len() implies !is_ws(#[trigger] key[i]) by {}
    lemma_trim_identity(key);
    lemma_apply_line_kind(h, l);
}

/// Lines of `l\nrest` with `l` one line.
proof fn lemma_lines_cons(l: Seq<char>, rest: Seq<char>)
    requires
        lacks(l, '\n'),
    ensures
        lines(l + nl() + rest) == seq![strip_cr(l)] + lines(rest),
{
    let s = l + nl() + rest;
    let k = l.len() as int;
    assert forall|j: int| 0 <= j < k implies !occurs_at(s, j, nl()) by {
        assert(s.subrange(j, j + 1)[0] == l[j]);
    }
    assert(s.subrange(k, k + 1) =~= nl());
    lemma_find_first(s, 0, k, nl());
    assert(s.take(k) =~= l);
    assert(s.skip(k + 1) =~= rest);
}

proof fn lemma_lines_single(l: Seq<char>)
    requires
        lacks(l, '\n'),
        l.len() > 0,
    ensures
        lines(l) == seq![l],
{
    assert forall|j: int| 0 <= j implies !occurs_at(l, j, nl()) by {
        if occurs_at(l, j, nl()) {
            assert(l.subrange(j, j + 1)[0] == l[j]);
        }
    }
    lemma_find_from(l, 0, nl());
}

/// Searching a field followed by more text for the closing fence passes the
/// field by.
proof fn lemma_close_after_field(key: Seq<char>, v: Seq<char>, r: Seq<char>)
    requires
        plain_key(key),
        lacks(v, '\n'),
        r.len() > 0,
        r[0] != '-',
    ensures
        find_from(field(key, v) + r, 0, close_fence()) == shift(
            find_from(r, 0, close_fence()),
            field(key, v).len() as int,
        ),
{
    let f = field(key, v);
    let l = field_line(key, v);
    let s = f + r;
    assert(f =~= l + nl());
    assert forall|i: int| 0 <= i < l.len() implies l[i] != '\n' by {
        if i < key.len() {
            assert(l[i] == key[i]);
        } else if i >= key.len() + 2 {
            assert(l[i] == v[i - key.len() - 2]);
        }
    }
    assert forall|j: int| 0 <= j < f.len() implies !occurs_at(s, j, close_fence()) by {
        if occurs_at(s, j, close_fence()) {
            assert(s.subrange(j, j + 5)[0] == s[j]);
            assert(s.subrange(j, j + 5)[1] == s[j + 1]);
            if j < l.len() {
                assert(s[j] == l[j]);
            } else {
                assert(s[j + 1] == r[0]);
            }
        }
    }
    lemma_find_skip(s, 0, f.len() as int, close_fence());
    lemma_find_shift(f, r, 0, close_fence());
}

/// The closing fence right after the last field.
proof fn lemma_close_at_last_field(key: Seq<char>, v: Seq<char>, b: Seq<char>)
    requires
        plain_key(key),
        lacks(v, '\n'),
    ensures
        find_from(field(key, v) + fence() + b, 0, close_fence()) == Some(
            field(key, v).len() - 1,
        ),
{
    let f = field(key, v);
    let l = field_line(key, v);
    let s = f + fence() + b;
    assert(f =~= l + nl());
    assert forall|i: int| 0 <= i < l.len() implies l[i] != '\n' by {
        if i < key.len() {
            assert(l[i] == key[i]);
        } else if i >= key.len() + 2 {
            assert(l[i] == v[i - key.len() - 2]);
        }
    }
    let k = l.len() as int;
    assert forall|j: int| 0 <= j < k implies !occurs_at(s, j, close_fence()) by {
        if occurs_at(s, j, close_fence()) {
            assert(s.subrange(j, j + 5)[0] == s[j]);
            assert(s[j] == l[j]);
        }
    }
    assert(s.subrange(k, k + 5) =~= close_fence());
    lemma_find_first(s, 0, k, close_fence());
}

/// What a note must be for its file to read back as itself.
pub open spec fn storable(n: NoteView) -> bool {
    &&& header_safe(n.id)
    &&& header_safe(n.title)
    &&& header_safe(n.tags)
    &&& n.id.len() > 0
    &&& n.title.len() > 0
    &&& n.created_at != 0
    &&& n.updated_at != 0
    &&& i64::MIN <= n.created_at <= i64::MAX
    &&& i64::MIN <= n.updated_at <= i64::MAX
}

/// The rendered header, fences included.
pub open spec fn header_text(n: NoteView) -> Seq<char> {
    fence() + field(key_id(), n.id) + field(key_title(), n.title) + field(
        key_created(),
        dec_int(n.created_at),
    ) + field(key_updated(), dec_int(n.updated_at)) + field(key_tags(), n.tags) + fence()
}

/// The five header lines of a rendered note.
pub open spec fn header_lines(n: NoteView) -> Seq<Seq<char>> {
    seq![
        field_line(key_id(), n.id),
        field_line(key_title(), n.title),
        field_line(key_created(), dec_int(n.created_at)),
        field_line(key_updated(), dec_int(n.updated_at)),
        field_line(key_tags(), n.tags),
    ]
}

/// The rendered header between its fences.
pub open spec fn header_block(n: NoteView) -> Seq<char> {
    let ls = header_lines(n);
    ls[0] + nl() + (ls[1] + nl() + (ls[2] + nl() + (ls[3] + nl() + ls[4])))
}

proof fn lemma_storable_fields(n: NoteView)
    requires
        storable(n),
    ensures
        lacks(n.id, '\n') && !is_ws(n.id.last()),
        lacks(n.title, '\n') && !is_ws(n.title.last()),
        lacks(n.tags, '\n') && (n.tags.len() == 0 || !is_ws(n.tags.last())),
        lacks(dec_int(n.created_at), '\n') && dec_int(n.created_at).len() > 0 && !is_ws(
            dec_int(n.created_at).last(),
        ),
        lacks(dec_int(n.updated_at), '\n') && dec_int(n.updated_at).len() > 0 && !is_ws(
            dec_int(n.updated_at).last(),
        ),
        trim(dec_int(n.created_at)) == dec_int(n.created_at),
        trim(dec_int(n.updated_at)) == dec_int(n.updated_at),
        plain_key(key_id()),
        plain_key(key_title()),
        plain_key(key_created()),
        plain_key(key_updated()),
        plain_key(key_tags()),
{
    lemma_keys();
    lemma_dec_text(n.created_at);
    lemma_dec_text(n.updated_at);
    lemma_trimmed_ends(n.id);
    lemma_trimmed_ends(n.title);
    if n.tags.len() > 0 {
        lemma_trimmed_ends(n.tags);
    }
}

#[verifier::spinoff_prover]
#[verifier::rlimit(40)]
proof fn lemma_render_crlf(n: NoteView)
    requires
        storable(n),
    ensures
        render(n) == header_text(n) + n.body,
        crlf_to_lf(render(n)) == header_text(n) + crlf_to_lf(n.body),
{
    lemma_storable_fields(n);
    let c = dec_int(n.created_at);
    let u = dec_int(n.updated_at);
    let f1 = field(key_id(), n.id);
    let f2 = field(key_title(), n.title);
    let f3 = field(key_created(), c);
    let f4 = field(key_updated(), u);
    let f5 = field(key_tags(), n.tags);
    lemma_field_line(key_id(), n.id);
    lemma_field_line(key_title(), n.title);
    lemma_field_line(key_created(), c);
    lemma_field_line(key_updated(), u);
    lemma_field_line(key_tags(), n.tags);
    let x0 = fence();
    let x1 = x0 + f1;
    let x2 = x1 + f2;
    let x3 = x2 + f3;
    let x4 = x3 + f4;
    let x5 = x4 + f5;
    let x6 = x5 + fence();
    assert(lacks(fence(), '\r'));
    lemma_crlf_no_cr(fence());
    lemma_crlf_append(x0, f1);
    lemma_crlf_append(x1, f2);
    lemma_crlf_append(x2, f3);
    lemma_crlf_append(x3, f4);
    lemma_crlf_append(x4, f5);
    lemma_crlf_append(x5, fence());
    lemma_crlf_append(x6, n.body);
}

#[verifier::spinoff_prover]
#[verifier::rlimit(40)]
proof fn lemma_split_rendered(n: NoteView, b: Seq<char>)
    requires
        storable(n),
    ensures
        split_front(header_text(n) + b) == (header_block(n), b),
{
    lemma_storable_fields(n);
    let c = dec_int(n.created_at);
    let u = dec_int(n.updated_at);
    let f1 = field(key_id(), n.id);
    let f2 = field(key_title(), n.title);
    let f3 = field(key_created(), c);
    let f4 = field(key_updated(), u);
    let f5 = field(key_tags(), n.tags);
    lemma_field_line(key_id(), n.id);
    lemma_field_line(key_title(), n.title);
    lemma_field_line(key_created(), c);
    lemma_field_line(key_updated(), u);
    lemma_field_line(key_tags(), n.tags);
    let t = header_text(n) + b;
    assert(t.subrange(0, 4) =~= fence());
    let r5 = f5 + fence() + b;
    let r4 = f4 + r5;
    let r3 = f3 + r4;
    let r2 = f2 + r3;
    let r1 = f1 + r2;
    assert(t.skip(4) =~= r1);
    lemma_close_at_last_field(key_tags(), n.tags, b);
    lemma_close_after_field(key_updated(), u, r5);
    lemma_close_after_field(key_created(), c, r4);
    lemma_close_after_field(key_title(), n.title, r3);
    lemma_close_after_field(key_id(), n.id, r2);
    let e = f1.len() + f2.len() + f3.len() + f4.len() + f5.len() - 1;
    assert(find_from(r1, 0, close_fence()) == Some(e));
    assert(r1.take(e) =~= header_block(n));
    assert(r1.skip(e + 5) =~= b);
}

proof fn lemma_lines_rendered(n: NoteView)
    requires
        storable(n),
    ensures
        lines(header_block(n)) == header_lines(n),
{
    lemma_storable_fields(n);
    let c = dec_int(n.created_at);
    let u = dec_int(n.updated_at);
    lemma_field_line(key_id(), n.id);
    lemma_field_line(key_title(), n.title);
    lemma_field_line(key_created(), c);
    lemma_field_line(key_updated(), u);
    lemma_field_line(key_tags(), n.tags);
    let ls = header_lines(n);
    assert(field_line(key_tags(), n.tags).len() > 0);
    lemma_lines_single(ls[4]);
    lemma_lines_cons(ls[3], ls[4]);
    lemma_lines_cons(ls[2], ls[3] + nl() + ls[4]);
    lemma_lines_cons(ls[1], ls[2] + nl() + (ls[3] + nl() + ls[4]));
    lemma_lines_cons(ls[0], ls[1] + nl() + (ls[2] + nl() + (ls[3] + nl() + ls[4])));
    assert(lines(header_block(n)) =~= ls);
}

proof fn lemma_header_rendered(n: NoteView)
    requires
        storable(n),
    ensures
        header_of(header_lines(n)) == (FrontView {
            id: n.id,
            title: n.title,
            created: n.created_at,
            updated: n.updated_at,
            tags: n.tags,
        }),
{
    lemma_storable_fields(n);
    lemma_keys();
    let c = dec_int(n.created_at);
    let u = dec_int(n.updated_at);
    let ls = header_lines(n);
    let l1 = ls[0];
    let l2 = ls[1];
    let l3 = ls[2];
    let l4 = ls[3];
    let l5 = ls[4];
    assert(ls.drop_last() =~= seq![l1, l2, l3, l4]);
    assert(seq![l1, l2, l3, l4].drop_last() =~= seq![l1, l2, l3]);
    assert(seq![l1, l2, l3].drop_last() =~= seq![l1, l2]);
    assert(seq![l1, l2].drop_last() =~= seq![l1]);
    assert(seq![l1].drop_last() =~= Seq::<Seq<char>>::empty());
    let h0 = empty_front();
    lemma_apply_field(h0, key_id(), n.id);
    let h1 = apply_line(h0, l1);
    lemma_apply_field(h1, key_title(), n.title);
    let h2 = apply_line(h1, l2);
    lemma_apply_field(h2, key_created(), c);
    let h3 = apply_line(h2, l3);
    lemma_apply_field(h3, key_updated(), u);
    let h4 = apply_line(h3, l4);
    lemma_apply_field(h4, key_tags(), n.tags);
    assert(header_of(Seq::<Seq<char>>::empty()) == h0);
    assert(seq![l1].last() == l1);
    assert(header_of(seq![l1]) == apply_line(header_of(seq![l1].drop_last()), l1));
    assert(header_of(seq![l1]) == h1);
    assert(header_of(seq![l1, l2]) == h2);
    assert(header_of(seq![l1, l2, l3]) == h3);
    assert(header_of(seq![l1, l2, l3, l4]) == h4);
    lemma_parse_dec(n.created_at);
    lemma_parse_dec(n.updated_at);
}

/// Saving a note and reading its file back gives the same note: id, title,
/// tags and both timestamps are kept, the body comes back with CRLF line
/// endings folded to LF (unchanged when it has none, see
/// `lemma_crlf_identity`), and the folder is the one the file lies in. This
/// holds for every note whose id, title and tags are single trimmed lines,
/// whose id and title are non-empty and whose timestamps are non-zero.
pub proof fn lemma_note_file_roundtrip(
    n: NoteView,
    folder: Seq<char>,
    stem: Option<Seq<char>>,
    mtime: int,
    minted: Seq<char>,
)
    requires
        storable(n),
    ensures
        text_note(render(n), folder, stem, mtime, minted) == (
            NoteView { body: crlf_to_lf(n.body), folder: folder, deleted_at: None, ..n },
            false,
        ),
{
    lemma_render_crlf(n);
    lemma_split_rendered(n, crlf_to_lf(n.body));
    lemma_lines_rendered(n);
    lemma_header_rendered(n);
}

/// The decimal text of an integer: one line, no whitespace, not starting
/// with `-`-free surprises.
proof fn lemma_dec_text(n: int)
    ensures
        lacks(dec_int(n), '\n'),
        dec_int(n).len() > 0,
        !is_ws(dec_int(n).last()),
        trim(dec_int(n)) == dec_int(n),
{
    let s = dec_int(n);
    let m: nat = if n < 0 {
        (-n) as nat
    } else {
        n as nat
    };
    lemma_dec_nat(m);
    let d = dec_nat(m);
    assert forall|i: int| 0 <= i < s.len() implies !is_ws(#[trigger] s[i]) && s[i] != '\n' by {
        if n < 0 {
            if i > 0 {
                assert(s[i] == d[i - 1]);
                assert(is_digit(d[i - 1]));
            }
        } else {
            assert(is_digit(d[i]));
        }
    }
    lemma_trim_identity(s);
}

/// Where each of the `lines` of `v` lies: `v[a..b]` for each `(a, b)`.
pub fn line_bounds(v: &Vec<char>) -> (r: Vec<(usize, usize)>)
    ensures
        r.len() == lines(v@).len(),
        forall|i: int|
            0 <= i < r.len() ==> #[trigger] r[i].0 <= r[i].1 <= v.len() && v@.subrange(
                r[i].0 as int,
                r[i].1 as int,
            ) == lines(v@)[i],
{
    let nl_v: Vec<char> = vec!['\n'];
    assert(nl_v@ =~= nl());
    let mut out: Vec<(usize, usize)> = Vec::new();
    let mut pos: usize = 0;
    let ghost mut done: Seq<Seq<char>> = Seq::empty();
    assert(v@.skip(0) =~= v@);
    while pos < v.len()
        invariant
            pos <= v.len(),
            nl_v@ == nl(),
            lines(v@) == done + lines(v@.skip(pos as int)),
            out.len() == done.len(),
            forall|i: int|
                0 <= i < out.len() ==> #[trigger] out[i].0 <= out[i].1 <= v.len() && v@.subrange(
                    out[i].0 as int,
                    out[i].1 as int,
                ) == done[i],
        decreases v.len() - pos,
    {
        let ghost rest = v@.skip(pos as int);
        proof {
            assert(v@ =~= v@.take(pos as int) + rest);
            lemma_find_shift(v@.take(pos as int), rest, 0, nl());
            lemma_find_from(rest, 0, nl());
        }
        match find_exec(v, pos, &nl_v) {
            Some(k) => {
                let mut lend = k;
                if k > pos && v[k - 1] == '\r' {
                    lend = k - 1;
                }
                proof {
                    let e = k - pos;
                    assert(rest.take(e) =~= v@.subrange(pos as int, k as int));
                    assert(strip_cr(rest.take(e)) =~= v@.subrange(pos as int, lend as int));
                    assert(rest.skip(e + 1) =~= v@.skip(k + 1));
                    let line = v@.subrange(pos as int, lend as int);
                    assert(seq![line] + lines(v@.skip(k + 1)) =~= lines(rest));
                    assert(done + lines(rest) =~= done.push(line) + lines(v@.skip(k + 1)));
                    done = done.push(line);
                }
                out.push((pos, lend));
                pos = k + 1;
            },
            None => {
                proof {
                    assert(rest =~= v@.subrange(pos as int, v.len() as int));
                    assert(v@.skip(v.len() as int) =~= Seq::<char>::empty());
                    assert(done + lines(rest) =~= done.push(rest) + lines(v@.skip(v.len() as int)));
                    done = done.push(rest);
                }
                out.push((pos, v.len()));
                pos = v.len();
            },
        }
    }
    assert(v@.skip(pos as int) =~= Seq::<char>::empty());
    assert(done + Seq::<Seq<char>>::empty() =~= done);
    out
}

/// A file made by hand, without a frontmatter header, is adopted: it takes
/// the minted id, its name (or `untitled`) as title, its mtime as both
/// timestamps, and its whole text (CRLF folded) as body.
pub proof fn lemma_adopt_plain_file(
    raw: Seq<char>,
    folder: Seq<char>,
    stem: Option<Seq<char>>,
    mtime: int,
    minted: Seq<char>,
)
    requires
        !occurs_at(crlf_to_lf(raw), 0, fence()),
    ensures
        text_note(raw, folder, stem, mtime, minted) == (
            NoteView {
                id: minted,
                title: match stem {
                    Some(s) => s,
                    None => untitled(),
                },
                body: crlf_to_lf(raw),
                folder: folder,
                tags: Seq::empty(),
                created_at: mtime,
                updated_at: mtime,
                deleted_at: None,
            },
            true,
        ),
{
    assert(lines(Seq::<char>::empty()) =~= Seq::<Seq<char>>::empty());
    assert(header_of(Seq::<Seq<char>>::empty()) == empty_front());
}

/// Every id the library mints survives a save and reload: a v4 UUID text
/// is a non-empty single trimmed line.
pub proof fn lemma_minted_id_storable(id: Seq<char>)
    requires
        is_uuid_v4_text(id),
    ensures
        header_safe(id),
        id.len() > 0,
{
    assert forall|i: int| 0 <= i < id.len() implies !is_ws(#[trigger] id[i]) && id[i] != '\n' by {
        if !(i == 8 || i == 13 || i == 18 || i == 23) {
            assert(crate::ident::is_lower_hex(id[i]));
        }
    }
    lemma_trim_identity(id);
}

} // verus!
