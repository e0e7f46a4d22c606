//! Tags: the comma-separated TAGS field and Obsidian-style inline `#tags`.

use vstd::prelude::*;
use crate::note::{Note, NoteView};
use crate::text::{
    lex_lt, lex_less, lemma_lex_trans, lemma_lex_total, find_from, lemma_find_from,
    lemma_find_shift, trim, is_ws, is_alphanumeric_char, unicode_lowercase, alphanumeric,
    is_whitespace, to_lowercase, chars_of, string_of, string_of_range, push_all, find_exec,
    trim_range, vec_eq, ascii_lower, ascii_text, lower_char,
};

verus! {

pub open spec fn comma() -> Seq<char> {
    seq![',']
}

/// One comma-separated piece as a tag, lowered by `low`: trimmed, then
/// lowered, or nothing when that leaves it empty. A blank piece is dropped
/// before lowering.
pub open spec fn piece_tag(x: Seq<char>, low: spec_fn(Seq<char>) -> Seq<char>) -> Seq<Seq<char>> {
    let p = trim(x);
    if p.len() == 0 {
        Seq::empty()
    } else {
        let t = low(p);
        if t.len() > 0 {
            seq![t]
        } else {
            Seq::empty()
        }
    }
}

/// The tags a TAGS field lists, in order, each piece lowered by `low`.
pub open spec fn tags_by(s: Seq<char>, low: spec_fn(Seq<char>) -> Seq<char>) -> Seq<Seq<char>>
    decreases s.len(),
{
    match find_from(s, 0, comma()) {
        Some(k) => {
            proof {
                lemma_find_from(s, 0, comma());
            }
            piece_tag(s.take(k), low) + tags_by(s.skip(k + 1), low)
        },
        None => piece_tag(s, low),
    }
}

/// Lowercasing as `str::to_lowercase` does it.
pub open spec fn unicode_low() -> spec_fn(Seq<char>) -> Seq<char> {
    |p: Seq<char>| unicode_lowercase(p)
}

/// ASCII lowercasing, one character for one.
pub open spec fn ascii_low() -> spec_fn(Seq<char>) -> Seq<char> {
    |p: Seq<char>| ascii_lower(p)
}

/// One comma-separated piece as a tag: trimmed and lowercased, or nothing
/// when that leaves it empty.
pub open spec fn tag_item(x: Seq<char>) -> Seq<Seq<char>> {
    piece_tag(x, unicode_low())
}

/// The tags a TAGS field lists, in order.
pub open spec fn field_tags(s: Seq<char>) -> Seq<Seq<char>> {
    tags_by(s, unicode_low())
}

/// The tags a TAGS field of ASCII text lists: as `field_tags`, and there
/// lowercasing maps `A`..`Z` to `a`..`z` and keeps every other character.
pub open spec fn ascii_field_tags(s: Seq<char>) -> Seq<Seq<char>> {
    tags_by(s, ascii_low())
}

pub open spec fn strings_view(v: Seq<String>) -> Seq<Seq<char>> {
    v.map_values(|x: String| x@)
}

/// The tags a comma-separated TAGS field lists: each piece trimmed and
/// lowercased, empty pieces dropped.
pub fn split_tags(s: &str) -> (r: Vec<String>)
    ensures
        strings_view(r@) == field_tags(s@),
        ascii_text(s@) ==> strings_view(r@) == ascii_field_tags(s@),
        s@.len() == 0 ==> r@.len() == 0,
{
    proof {
        if s@.len() == 0 {
            lemma_tags_field_roundtrip(Seq::empty());
            assert(join_with(Seq::empty(), seq![',', ' ']) == Seq::<char>::empty());
            assert(s@ =~= Seq::<char>::empty());
        }
    }
    let v = chars_of(s);
    let comma_v: Vec<char> = vec![','];
    assert(comma_v@ =~= comma());
    let mut out: Vec<String> = Vec::new();
    let ghost mut acc: Seq<Seq<char>> = Seq::empty();
    let ghost mut acc2: Seq<Seq<char>> = Seq::empty();
    let mut pos: usize = 0;
    let mut finished = false;
    assert(v@.skip(0) =~= v@);
    while !finished
        invariant
            pos <= v.len(),
            comma_v@ == comma(),
            strings_view(out@) == acc,
            !finished ==> field_tags(v@) == acc + field_tags(v@.skip(pos as int)),
            finished ==> field_tags(v@) == acc,
            ascii_text(v@) ==> acc2 == acc,
            !finished ==> ascii_field_tags(v@) == acc2 + ascii_field_tags(v@.skip(pos as int)),
            finished ==> ascii_field_tags(v@) == acc2,
        decreases v.len() - pos + (if finished {
            0int
        } else {
            1int
        }),
    {
        let ghost rest = v@.skip(pos as int);
        proof {
            assert(v@ =~= v@.take(pos as int) + rest);
            lemma_find_shift(v@.take(pos as int), rest, 0, comma());
            lemma_find_from(rest, 0, comma());
        }
        let end = match find_exec(&v, pos, &comma_v) {
            Some(k) => k,
            None => v.len(),
        };
        let (a, b) = trim_range(&v, pos, end);
        proof {
            assert(v@.subrange(pos as int, end as int) =~= rest.take(end - pos));
        }
        let ghost item = tag_item(rest.take(end - pos));
        let ghost item2 = piece_tag(rest.take(end - pos), ascii_low());
        if a < b {
            let t = to_lowercase(string_of_range(&v, a, b).as_str());
            proof {
                let piece = v@.subrange(a as int, b as int);
                if ascii_text(v@) {
                    assert forall|i: int| 0 <= i < piece.len() implies (#[trigger] piece[i]
                        as u32) < 128 by {
                        assert(piece[i] == v@[a + i]);
                    }
                    assert(ascii_lower(piece).len() == piece.len());
                    assert(item2 == item);
                }
            }
            if !t.as_str().is_empty() {
                out.push(t);
            }
        }
        proof {
            assert(strings_view(out@) =~= acc + item);
            if end < v.len() {
                assert(rest.skip(end - pos + 1) =~= v@.skip(end + 1));
                assert(acc + (item + field_tags(v@.skip(end + 1))) =~= (acc + item) + field_tags(
                    v@.skip(end + 1),
                ));
                assert(acc2 + (item2 + ascii_field_tags(v@.skip(end + 1))) =~= (acc2 + item2)
                    + ascii_field_tags(v@.skip(end + 1)));
            } else {
                assert(rest =~= rest.take(end - pos));
            }
            acc = acc + item;
            acc2 = acc2 + item2;
        }
        if end < v.len() {
            pos = end + 1;
        } else {
            pos = v.len();
            finished = true;
        }
    }
    out
}

/// Items joined with `sep`.
pub open spec fn join_with(ss: Seq<Seq<char>>, sep: Seq<char>) -> Seq<char>
    decreases ss.len(),
{
    if ss.len() == 0 {
        Seq::empty()
    } else if ss.len() == 1 {
        ss[0]
    } else {
        join_with(ss.drop_last(), sep) + sep + ss.last()
    }
}

/// A TAGS field in its stored form: its tags joined with `, `.
pub fn normalize_tags(s: &str) -> (r: String)
    ensures
        r@ == join_with(field_tags(s@), seq![',', ' ']),
        ascii_text(s@) ==> r@ == join_with(ascii_field_tags(s@), seq![',', ' ']),
{
    let ts = split_tags(s);
    let ghost vs = strings_view(ts@);
    let mut out: Vec<char> = Vec::new();
    let mut i: usize = 0;
    while i < ts.len()
        invariant
            i <= ts.len(),
            vs == strings_view(ts@),
            out@ == join_with(vs.take(i as int), seq![',', ' ']),
        decreases ts.len() - i,
    {
        if i > 0 {
            out.push(',');
            out.push(' ');
        }
        push_all(&mut out, &chars_of(ts[i].as_str()));
        proof {
            let t = vs.take(i + 1);
            assert(t.drop_last() =~= vs.take(i as int));
            assert(t.last() == ts[i as int]@);
            if i == 0 {
                assert(out@ =~= t[0]);
            } else {
                assert(out@ =~= join_with(t.drop_last(), seq![',', ' ']) + seq![',', ' '] + t.last());
            }
        }
        i = i + 1;
    }
    assert(vs.take(ts.len() as int) =~= vs);
    string_of(&out)
}

// ---------------------------------------------------------------------------
// Inline #tags
// ---------------------------------------------------------------------------

/// A character that may continue an inline tag.
pub open spec fn tag_char(c: char) -> bool {
    is_alphanumeric_char(c) || c == '-' || c == '_' || c == '/'
}

/// A `#` at `i` may open a tag: it starts the text or follows whitespace or
/// one of `( [ { , ; " '`. Markdown headings (`# `) open none, having no
/// tag character after the hash.
pub open spec fn opens_tag(s: Seq<char>, i: int) -> bool {
    i == 0 || is_ws(s[i - 1]) || s[i - 1] == '(' || s[i - 1] == '[' || s[i - 1] == '{' || s[i
        - 1] == ',' || s[i - 1] == ';' || s[i - 1] == '"' || s[i - 1] == '\''
}

/// End of the run of tag characters starting at `j`.
pub open spec fn tag_end(s: Seq<char>, j: int) -> int
    decreases s.len() - j,
{
    if 0 <= j < s.len() && tag_char(s[j]) {
        tag_end(s, j + 1)
    } else {
        j
    }
}

pub proof fn lemma_tag_end(s: Seq<char>, j: int)
    requires
        0 <= j <= s.len(),
    ensures
        j <= tag_end(s, j) <= s.len(),
    decreases s.len() - j,
{
    if j < s.len() && tag_char(s[j]) {
        lemma_tag_end(s, j + 1);
    }
}

/// Inline tags from position `i` on, lowercased, in order.
pub open spec fn inline_from(s: Seq<char>, i: int) -> Seq<Seq<char>>
    decreases s.len() - i,
{
    if i < 0 || i >= s.len() {
        Seq::empty()
    } else if s[i] == '#' && opens_tag(s, i) && tag_end(s, i + 1) > i + 1 {
        let e = tag_end(s, i + 1);
        proof {
            lemma_tag_end(s, i + 1);
        }
        seq![unicode_lowercase(s.subrange(i + 1, e))] + inline_from(s, e)
    } else {
        inline_from(s, i + 1)
    }
}

/// Across a run of tag characters from `k` to `j`, ended at `j`, the tag
/// run from `k` ends at `j`.
proof fn lemma_tag_end_run(s: Seq<char>, k: int, j: int)
    requires
        0 <= k <= j <= s.len(),
        forall|m: int| k <= m < j ==> tag_char(#[trigger] s[m]),
        j == s.len() || !tag_char(s[j]),
    ensures
        tag_end(s, k) == j,
    decreases j - k,
{
    if k < j {
        lemma_tag_end_run(s, k + 1, j);
    }
}

/// Scanning from any point up to `i` reaches the tag opened at `i`.
proof fn lemma_inline_reaches(s: Seq<char>, p: int, i: int, j: int)
    requires
        0 <= p <= i,
        i + 1 < j <= s.len(),
        s[i] == '#',
        opens_tag(s, i),
        forall|k: int| p <= k < i ==> #[trigger] s[k] != '#',
        tag_end(s, i + 1) == j,
    ensures
        inline_from(s, p).contains(unicode_lowercase(s.subrange(i + 1, j))),
    decreases i - p,
{
    if p < i {
        assert(s[p] != '#');
        lemma_inline_reaches(s, p + 1, i, j);
    } else {
        let t = unicode_lowercase(s.subrange(i + 1, j));
        assert(inline_from(s, i) == seq![t] + inline_from(s, j));
        assert((seq![t] + inline_from(s, j))[0] == t);
    }
}

/// A `#` that starts the text or follows whitespace (a newline included) or
/// one of `( [ { , ; " '`, and that is followed by a run of tag characters
/// (alphanumeric, `-`, `_`, `/`), yields that whole run, lowercased, as an
/// inline tag, when no `#` comes before it.
pub proof fn lemma_inline_tag_found(s: Seq<char>, i: int, j: int)
    requires
        0 <= i,
        i + 1 < j <= s.len(),
        s[i] == '#',
        i == 0 || is_ws(s[i - 1]) || s[i - 1] == '(' || s[i - 1] == '[' || s[i - 1] == '{'
            || s[i - 1] == ',' || s[i - 1] == ';' || s[i - 1] == '"' || s[i - 1] == '\'',
        forall|k: int| 0 <= k < i ==> #[trigger] s[k] != '#',
        forall|k: int|
            i < k < j ==> is_alphanumeric_char(#[trigger] s[k]) || s[k] == '-' || s[k] == '_'
                || s[k] == '/',
        j == s.len() || !(is_alphanumeric_char(s[j]) || s[j] == '-' || s[j] == '_' || s[j]
            == '/'),
    ensures
        inline_from(s, 0).contains(unicode_lowercase(s.subrange(i + 1, j))),
{
    assert forall|m: int| i + 1 <= m < j implies tag_char(#[trigger] s[m]) by {}
    lemma_tag_end_run(s, i + 1, j);
    lemma_inline_reaches(s, 0, i, j);
}

fn opens_tag_exec(s: &Vec<char>, i: usize) -> (b: bool)
    requires
        i < s.len(),
    ensures
        b == opens_tag(s@, i as int),
{
    if i == 0 {
        return true;
    }
    let p = s[i - 1];
    is_whitespace(p) || p == '(' || p == '[' || p == '{' || p == ',' || p == ';' || p == '"' || p
        == '\''
}

/// Obsidian-style #tags embedded in note text. Skips markdown headings
/// (`# ` / `## `) since those have whitespace right after the hash.
pub fn inline_tags(body: &str) -> (r: Vec<String>)
    ensures
        strings_view(r@) == inline_from(body@, 0),
{
    let s = chars_of(body);
    let mut out: Vec<String> = Vec::new();
    let mut i: usize = 0;
    while i < s.len()
        invariant
            i <= s.len(),
            strings_view(out@) + inline_from(s@, i as int) == inline_from(s@, 0),
        decreases s.len() - i,
    {
        if s[i] == '#' {
            let ok = opens_tag_exec(&s, i);
            let start = i + 1;
            let mut j = start;
            proof {
                lemma_tag_end(s@, start as int);
            }
            while j < s.len() && (alphanumeric(s[j]) || s[j] == '-' || s[j] == '_' || s[j] == '/')
                invariant
                    start <= j <= s.len(),
                    tag_end(s@, start as int) == tag_end(s@, j as int),
                decreases s.len() - j,
            {
                j = j + 1;
            }
            if ok && j > start {
                let ghost before = strings_view(out@);
                let t = to_lowercase(string_of_range(&s, start, j).as_str());
                out.push(t);
                proof {
                    assert(strings_view(out@) =~= before.push(
                        unicode_lowercase(s@.subrange(start as int, j as int)),
                    ));
                    assert(before + (seq![unicode_lowercase(s@.subrange(start as int, j as int))]
                        + inline_from(s@, j as int)) =~= strings_view(out@) + inline_from(
                        s@,
                        j as int,
                    ));
                }
                i = j;
                continue ;
            }
        }
        i = i + 1;
    }
    out
}

// ---------------------------------------------------------------------------
// A note's tags
// ---------------------------------------------------------------------------

/// `v` with each of `ts` appended in order unless already there.
pub open spec fn add_new(v: Seq<Seq<char>>, ts: Seq<Seq<char>>) -> Seq<Seq<char>>
    decreases ts.len(),
{
    if ts.len() == 0 {
        v
    } else {
        let w = add_new(v, ts.drop_last());
        if w.contains(ts.last()) {
            w
        } else {
            w.push(ts.last())
        }
    }
}

/// All tags of a note: its TAGS field, then its inline #tags not already listed.
pub open spec fn tags_of(n: NoteView) -> Seq<Seq<char>> {
    add_new(field_tags(n.tags), inline_from(n.body, 0))
}

fn contains_string(v: &Vec<String>, t: &String) -> (b: bool)
    ensures
        b == strings_view(v@).contains(t@),
{
    let tv = chars_of(t.as_str());
    let mut i: usize = 0;
    while i < v.len()
        invariant
            i <= v.len(),
            tv@ == t@,
            forall|j: int| 0 <= j < i ==> v[j]@ != t@,
        decreases v.len() - i,
    {
        if vec_eq(&chars_of(v[i].as_str()), &tv) {
            assert(strings_view(v@)[i as int] == t@);
            return true;
        }
        i = i + 1;
    }
    proof {
        if strings_view(v@).contains(t@) {
            let j = choose|j: int| 0 <= j < v.len() && strings_view(v@)[j] == t@;
            assert(v[j]@ == t@);
        }
    }
    false
}

/// All tags for a note: explicit TAGS field plus inline #tags in the body.
pub fn note_tags(n: &Note) -> (r: Vec<String>)
    ensures
        strings_view(r@) == tags_of(n@),
{
    let mut v = split_tags(n.tags.as_str());
    let inl = inline_tags(n.body.as_str());
    let ghost base = strings_view(v@);
    let ghost ts = strings_view(inl@);
    let mut i: usize = 0;
    assert(ts.take(0) =~= Seq::<Seq<char>>::empty());
    while i < inl.len()
        invariant
            i <= inl.len(),
            ts == strings_view(inl@),
            strings_view(v@) == add_new(base, ts.take(i as int)),
        decreases inl.len() - i,
    {
        let t = inl[i].clone();
        proof {
            assert(ts.take(i + 1).drop_last() =~= ts.take(i as int));
            assert(ts.take(i + 1).last() == t@);
        }
        if !contains_string(&v, &t) {
            v.push(t);
            proof {
                assert(strings_view(v@) =~= add_new(base, ts.take(i as int)).push(t@));
            }
        }
        i = i + 1;
    }
    assert(ts.take(inl.len() as int) =~= ts);
    v
}

// ---------------------------------------------------------------------------
// Tag filter and the tag bar
// ---------------------------------------------------------------------------

/// Notes carrying `tag` (all of them without one), in order.
pub open spec fn with_tag(ns: Seq<NoteView>, tag: Option<Seq<char>>) -> Seq<NoteView>
    decreases ns.len(),
{
    if ns.len() == 0 {
        Seq::empty()
    } else {
        let rest = with_tag(ns.drop_last(), tag);
        match tag {
            None => rest.push(ns.last()),
            Some(t) => if tags_of(ns.last()).contains(t) {
                rest.push(ns.last())
            } else {
                rest
            },
        }
    }
}

pub open spec fn notes_view(ns: Seq<Note>) -> Seq<NoteView> {
    ns.map_values(|n: Note| n@)
}

/// The tree view's in-memory tag filter: notes carrying `tag` (its explicit
/// or inline tags), or every note when no tag is active.
pub fn filter_by_tag(notes: &Vec<Note>, tag: &Option<String>) -> (r: Vec<Note>)
    ensures
        notes_view(r@) == with_tag(
            notes_view(notes@),
            match tag {
                Some(t) => Some(t@),
                None => None,
            },
        ),
{
    let ghost all = notes_view(notes@);
    let ghost tg = match tag {
        Some(t) => Some(t@),
        None => None::<Seq<char>>,
    };
    let mut out: Vec<Note> = Vec::new();
    let mut i: usize = 0;
    while i < notes.len()
        invariant
            i <= notes.len(),
            all == notes_view(notes@),
            tg == (match tag {
                Some(t) => Some(t@),
                None => None::<Seq<char>>,
            }),
            notes_view(out@) == with_tag(all.take(i as int), tg),
        decreases notes.len() - i,
    {
        let n = &notes[i];
        let keep = match tag {
            None => true,
            Some(t) => {
                let ts = note_tags(n);
                contains_string(&ts, t)
            },
        };
        proof {
            assert(all.take(i + 1).drop_last() =~= all.take(i as int));
            assert(all.take(i + 1).last() == n@);
        }
        if keep {
            out.push(n.clone());
            proof {
                assert(notes_view(out@) =~= with_tag(all.take(i as int), tg).push(n@));
            }
        }
        i = i + 1;
    }
    assert(all.take(notes.len() as int) =~= all);
    out
}

/// Strictly increasing: sorted, no repeats.
pub open spec fn strictly_sorted(v: Seq<Seq<char>>) -> bool {
    forall|i: int, j: int| 0 <= i < j < v.len() ==> lex_lt(#[trigger] v[i], #[trigger] v[j])
}

/// Some note among `ns` carries tag `t`.
pub open spec fn tag_in(ns: Seq<NoteView>, t: Seq<char>) -> bool {
    exists|i: int| 0 <= i < ns.len() && #[trigger] tags_of(ns[i]).contains(t)
}

/// Inserts `t` into the strictly sorted `v` unless present.
fn insert_sorted(v: &mut Vec<String>, t: String)
    requires
        strictly_sorted(strings_view(old(v)@)),
    ensures
        strictly_sorted(strings_view(final(v)@)),
        forall|x: Seq<char>|
            #[trigger] strings_view(final(v)@).contains(x) <==> (strings_view(old(v)@).contains(x)
                || x == t@),
{
    let tv = chars_of(t.as_str());
    let mut p: usize = 0;
    while p < v.len() && lex_less(&chars_of(v[p].as_str()), &tv)
        invariant
            p <= v.len(),
            tv@ == t@,
            forall|j: int| 0 <= j < p ==> lex_lt(#[trigger] v[j]@, t@),
        decreases v.len() - p,
    {
        p = p + 1;
    }
    let ghost old_v = strings_view(v@);
    if p < v.len() && vec_eq(&chars_of(v[p].as_str()), &tv) {
        assert(old_v[p as int] == t@);
        return ;
    }
    proof {
        if p < v.len() {
            lemma_lex_total(v[p as int]@, t@);
        }
    }
    v.insert(p, t);
    proof {
        let nv = strings_view(v@);
        assert(nv =~= old_v.insert(p as int, tv@));
        assert forall|i: int, j: int| 0 <= i < j < nv.len() implies lex_lt(
            #[trigger] nv[i],
            #[trigger] nv[j],
        ) by {
            if j < p {
                assert(nv[i] == old_v[i] && nv[j] == old_v[j]);
            } else if j == p {
                assert(nv[i] == old_v[i]);
                assert(lex_lt(v@[i]@, tv@));
            } else if i < p {
                assert(nv[i] == old_v[i]);
                assert(nv[j] == old_v[j - 1]);
                assert(lex_lt(old_v[i], tv@));
                assert(lex_lt(tv@, old_v[p as int]));
                if j - 1 > p {
                    assert(lex_lt(old_v[p as int], old_v[j - 1]));
                    lemma_lex_trans(tv@, old_v[p as int], old_v[j - 1]);
                }
                lemma_lex_trans(old_v[i], tv@, old_v[j - 1]);
            } else if i == p {
                assert(nv[j] == old_v[j - 1]);
                assert(lex_lt(tv@, old_v[p as int]));
                if j - 1 > p {
                    assert(lex_lt(old_v[p as int], old_v[j - 1]));
                    lemma_lex_trans(tv@, old_v[p as int], old_v[j - 1]);
                }
            } else {
                assert(nv[i] == old_v[i - 1] && nv[j] == old_v[j - 1]);
            }
        }
        assert forall|x: Seq<char>| nv.contains(x) <==> (old_v.contains(x) || x == t@) by {
            if nv.contains(x) {
                let k = choose|k: int| 0 <= k < nv.len() && nv[k] == x;
                if k < p {
                    assert(old_v[k] == x);
                } else if k > p {
                    assert(old_v[k - 1] == x);
                }
            }
            if old_v.contains(x) {
                let k = choose|k: int| 0 <= k < old_v.len() && old_v[k] == x;
                if k < p {
                    assert(nv[k] == x);
                } else {
                    assert(nv[k + 1] == x);
                }
            }
            if x == t@ {
                assert(nv[p as int] == x);
            }
        }
    }
}

/// Every tag of every note, sorted and without repeats (the tag bar).
pub fn all_tags(notes: &Vec<Note>) -> (r: Vec<String>)
    ensures
        strictly_sorted(strings_view(r@)),
        forall|t: Seq<char>| strings_view(r@).contains(t) <==> tag_in(notes_view(notes@), t),
{
    let ghost all = notes_view(notes@);
    let mut out: Vec<String> = Vec::new();
    let mut i: usize = 0;
    while i < notes.len()
        invariant
            i <= notes.len(),
            all == notes_view(notes@),
            strictly_sorted(strings_view(out@)),
            forall|t: Seq<char>|
                #[trigger] strings_view(out@).contains(t) <==> tag_in(all.take(i as int), t),
        decreases notes.len() - i,
    {
        let ts = note_tags(&notes[i]);
        let ghost before = strings_view(out@);
        let ghost cur = strings_view(ts@);
        let mut k: usize = 0;
        while k < ts.len()
            invariant
                k <= ts.len(),
                cur == strings_view(ts@),
                strictly_sorted(strings_view(out@)),
                forall|t: Seq<char>|
                    #[trigger] strings_view(out@).contains(t) <==> (before.contains(t) || cur.take(
                        k as int,
                    ).contains(t)),
            decreases ts.len() - k,
        {
            let ghost mid = strings_view(out@);
            let tk = ts[k].clone();
            let ghost tkv = tk@;
            insert_sorted(&mut out, tk);
            proof {
                assert(tkv == cur[k as int]);
                assert forall|t: Seq<char>| strings_view(out@).contains(t) <==> (before.contains(t)
                    || cur.take(k + 1).contains(t)) by {
                    assert(strings_view(out@).contains(t) <==> (mid.contains(t) || t == tkv));
                    assert(mid.contains(t) <==> (before.contains(t) || cur.take(k as int).contains(
                        t,
                    )));
                    let c1 = cur.take(k + 1);
                    assert(c1 =~= cur.take(k as int).push(ts[k as int]@));
                    if c1.contains(t) {
                        let m = choose|m: int| 0 <= m < c1.len() && c1[m] == t;
                        if m < k {
                            assert(cur.take(k as int)[m] == t);
                        }
                    }
                    if cur.take(k as int).contains(t) {
                        let m = choose|m: int| 0 <= m < k && cur.take(k as int)[m] == t;
                        assert(c1[m] == t);
                    }
                    if t == tkv {
                        assert(c1[k as int] == t);
                    }
                }
            }
            k = k + 1;
        }
        proof {
            assert(cur.take(ts.len() as int) =~= cur);
            let a1 = all.take(i + 1);
            assert(a1[i as int] == notes[i as int]@);
            assert forall|t: Seq<char>| strings_view(out@).contains(t) <==> tag_in(a1, t) by {
                assert(strings_view(out@).contains(t) <==> (before.contains(t) || cur.contains(t)));
                assert(before.contains(t) <==> tag_in(all.take(i as int), t));
                assert(cur == tags_of(a1[i as int]));
                if tag_in(a1, t) {
                    let m = choose|m: int| 0 <= m < a1.len() && #[trigger] tags_of(a1[m]).contains(t);
                    if m < i {
                        assert(all.take(i as int)[m] == a1[m]);
                        assert(tag_in(all.take(i as int), t));
                    }
                }
                if tag_in(all.take(i as int), t) {
                    let m = choose|m: int|
                        0 <= m < i && #[trigger] tags_of(all.take(i as int)[m]).contains(t);
                    assert(a1[m] == all.take(i as int)[m]);
                }
                if cur.contains(t) {
                    assert(tags_of(a1[i as int]).contains(t));
                }
            }
        }
        i = i + 1;
    }
    assert(all.take(notes.len() as int) =~= all);
    out
}

/// A tag that reads back as itself when pieces are lowered by `low`:
/// non-empty, trimmed, without a comma, and unchanged by `low`.
pub open spec fn stored_by(t: Seq<char>, low: spec_fn(Seq<char>) -> Seq<char>) -> bool {
    &&& t.len() > 0
    &&& trim(t) == t
    &&& forall|i: int| 0 <= i < t.len() ==> #[trigger] t[i] != ','
    &&& low(t) == t
}

/// A tag that reads back as itself: trimmed, without a comma, and unchanged
/// by lowercasing it again.
pub open spec fn settled_tag(t: Seq<char>) -> bool {
    &&& trim(t) == t
    &&& forall|i: int| 0 <= i < t.len() ==> #[trigger] t[i] != ','
    &&& unicode_lowercase(t) == t
}

/// A tag as stored: non-empty and settled.
pub open spec fn stored_tag(t: Seq<char>) -> bool {
    t.len() > 0 && settled_tag(t)
}

/// Every tag a TAGS field lists is non-empty.
proof fn lemma_tags_nonempty(s: Seq<char>, low: spec_fn(Seq<char>) -> Seq<char>)
    ensures
        forall|i: int| 0 <= i < tags_by(s, low).len() ==> #[trigger] tags_by(s, low)[i].len() > 0,
    decreases s.len(),
{
    crate::text::lemma_find_from(s, 0, comma());
    match find_from(s, 0, comma()) {
        Some(k) => {
            let a = piece_tag(s.take(k), low);
            let b = tags_by(s.skip(k + 1), low);
            lemma_tags_nonempty(s.skip(k + 1), low);
            assert forall|i: int| 0 <= i < tags_by(s, low).len() implies #[trigger] tags_by(
                s,
                low,
            )[i].len() > 0 by {
                if i >= a.len() {
                    assert(tags_by(s, low)[i] == b[i - a.len()]);
                }
            }
        },
        None => {},
    }
}

proof fn lemma_trim_pad(t: Seq<char>)
    requires
        trim(t) == t,
        t.len() > 0,
    ensures
        trim(seq![' '] + t) == t,
{
    let w = seq![' '] + t;
    assert(w.drop_first() =~= t);
    crate::text::lemma_lead_ws(t);
    crate::text::lemma_trail_ws(crate::text::trim_start(t));
    assert(crate::text::lead_ws(w) == 1 + crate::text::lead_ws(t));
    assert(w.skip(crate::text::lead_ws(w) as int) =~= t.skip(crate::text::lead_ws(t) as int));
}

/// Splitting at a comma splits the tag list.
proof fn lemma_tags_concat(x: Seq<char>, y: Seq<char>, low: spec_fn(Seq<char>) -> Seq<char>)
    ensures
        tags_by(x + comma() + y, low) == tags_by(x, low) + tags_by(y, low),
    decreases x.len(),
{
    let s = x + comma() + y;
    crate::text::lemma_find_from(x, 0, comma());
    match find_from(x, 0, comma()) {
        Some(k) => {
            assert forall|j: int| 0 <= j < k implies !crate::text::occurs_at(s, j, comma()) by {
                assert(!crate::text::occurs_at(x, j, comma()));
                assert(s.subrange(j, j + 1) =~= x.subrange(j, j + 1));
            }
            assert(s.subrange(k, k + 1) =~= x.subrange(k, k + 1));
            crate::text::lemma_find_first(s, 0, k, comma());
            let x2 = x.skip(k + 1);
            assert(s.take(k) =~= x.take(k));
            assert(s.skip(k + 1) =~= x2 + comma() + y);
            lemma_tags_concat(x2, y, low);
            assert(piece_tag(x.take(k), low) + (tags_by(x2, low) + tags_by(y, low)) =~= (
            piece_tag(x.take(k), low) + tags_by(x2, low)) + tags_by(y, low));
        },
        None => {
            let k = x.len() as int;
            assert forall|j: int| 0 <= j < k implies !crate::text::occurs_at(s, j, comma()) by {
                if crate::text::occurs_at(s, j, comma()) {
                    if j + 1 <= x.len() {
                        assert(s.subrange(j, j + 1) =~= x.subrange(j, j + 1));
                        assert(crate::text::occurs_at(x, j, comma()));
                    }
                }
            }
            assert(s.subrange(k, k + 1) =~= comma());
            crate::text::lemma_find_first(s, 0, k, comma());
            assert(s.take(k) =~= x);
            assert(s.skip(k + 1) =~= y);
        },
    }
}

/// A stored tag on its own is read back as itself.
proof fn lemma_single_tag(t: Seq<char>, low: spec_fn(Seq<char>) -> Seq<char>)
    requires
        stored_by(t, low),
    ensures
        tags_by(t, low) == seq![t],
        tags_by(seq![' '] + t, low) == seq![t],
{
    assert forall|j: int| 0 <= j implies !crate::text::occurs_at(t, j, comma()) by {
        if crate::text::occurs_at(t, j, comma()) {
            assert(t.subrange(j, j + 1)[0] == t[j]);
        }
    }
    crate::text::lemma_find_from(t, 0, comma());
    let w = seq![' '] + t;
    assert forall|j: int| 0 <= j implies !crate::text::occurs_at(w, j, comma()) by {
        if crate::text::occurs_at(w, j, comma()) {
            assert(w.subrange(j, j + 1)[0] == w[j]);
            if j > 0 {
                assert(w[j] == t[j - 1]);
            }
        }
    }
    crate::text::lemma_find_from(w, 0, comma());
    lemma_trim_pad(t);
}

/// Tags that each read back as themselves are read back from the field they
/// are written to.
proof fn lemma_tags_roundtrip(ts: Seq<Seq<char>>, low: spec_fn(Seq<char>) -> Seq<char>)
    requires
        forall|i: int| 0 <= i < ts.len() ==> stored_by(#[trigger] ts[i], low),
    ensures
        tags_by(join_with(ts, seq![',', ' ']), low) == ts,
    decreases ts.len(),
{
    if ts.len() == 0 {
        let e = Seq::<char>::empty();
        crate::text::lemma_find_from(e, 0, comma());
        assert(trim(e) =~= e);
        assert(ts =~= Seq::<Seq<char>>::empty());
    } else if ts.len() == 1 {
        let t = ts[0];
        lemma_single_tag(t, low);
        assert(ts =~= seq![t]);
    } else {
        let p = ts.drop_last();
        let t = ts.last();
        assert(stored_by(ts[ts.len() - 1], low));
        assert forall|i: int| 0 <= i < p.len() implies stored_by(#[trigger] p[i], low) by {
            assert(p[i] == ts[i]);
        }
        lemma_tags_roundtrip(p, low);
        let j = join_with(p, seq![',', ' ']);
        assert(join_with(ts, seq![',', ' ']) =~= j + comma() + (seq![' '] + t));
        lemma_tags_concat(j, seq![' '] + t, low);
        lemma_single_tag(t, low);
        assert(ts =~= p + seq![t]);
    }
}

/// Reading a stored TAGS field gives back the tags it was written from: the
/// normalized form (`a, b, c`) is stable, and an empty list is written as
/// the empty field, which lists no tags.
pub proof fn lemma_tags_field_roundtrip(ts: Seq<Seq<char>>)
    requires
        forall|i: int| 0 <= i < ts.len() ==> stored_tag(#[trigger] ts[i]),
    ensures
        field_tags(join_with(ts, seq![',', ' '])) == ts,
{
    assert forall|i: int| 0 <= i < ts.len() implies stored_by(#[trigger] ts[i], unicode_low()) by {
        assert(stored_tag(ts[i]));
    }
    lemma_tags_roundtrip(ts, unicode_low());
}

/// Normalizing a TAGS field a second time changes nothing, when each tag it
/// lists is settled (trimmed, comma-free, and unchanged by lowercasing
/// again). A field that lists no tags, such as the empty one, normalizes to
/// the empty field either way.
pub proof fn lemma_normalize_stable(s: Seq<char>)
    requires
        forall|i: int| 0 <= i < field_tags(s).len() ==> settled_tag(#[trigger] field_tags(s)[i]),
    ensures
        field_tags(join_with(field_tags(s), seq![',', ' '])) == field_tags(s),
        join_with(field_tags(join_with(field_tags(s), seq![',', ' '])), seq![',', ' '])
            == join_with(field_tags(s), seq![',', ' ']),
{
    let ts = field_tags(s);
    lemma_tags_nonempty(s, unicode_low());
    assert forall|i: int| 0 <= i < ts.len() implies stored_tag(#[trigger] ts[i]) by {
        assert(settled_tag(ts[i]));
        assert(ts[i].len() > 0);
    }
    lemma_tags_field_roundtrip(ts);
}

/// The tag an ASCII piece without a comma gives is ASCII and reads back as
/// itself.
proof fn lemma_ascii_piece(x: Seq<char>)
    requires
        ascii_text(x),
        forall|i: int| 0 <= i < x.len() ==> #[trigger] x[i] != ',',
    ensures
        forall|i: int|
            0 <= i < piece_tag(x, ascii_low()).len() ==> stored_by(
                #[trigger] piece_tag(x, ascii_low())[i],
                ascii_low(),
            ) && ascii_text(piece_tag(x, ascii_low())[i]),
{
    let l = crate::text::lead_ws(x) as int;
    crate::text::lemma_lead_ws(x);
    let u = x.skip(l);
    crate::text::lemma_trail_ws(u);
    let p = trim(x);
    if p.len() > 0 {
        let tr = crate::text::trail_ws(u) as int;
        assert(p == u.take(u.len() - tr));
        assert forall|i: int| 0 <= i < p.len() implies #[trigger] p[i] == x[i + l] by {}
        assert(p[0] == x[l]);
        assert(p.last() == u[u.len() - tr - 1]);
        let t = ascii_lower(p);
        crate::text::lemma_lower_char(p[0]);
        crate::text::lemma_lower_char(p.last());
        assert(t[0] == lower_char(p[0]));
        assert(t.last() == lower_char(p.last()));
        crate::text::lemma_lead_ws_unique(t, 0);
        crate::text::lemma_trail_ws_unique(t, 0);
        assert(t.skip(0) =~= t);
        assert(t.take(t.len() as int) =~= t);
        assert forall|i: int| 0 <= i < t.len() implies #[trigger] t[i] != ',' && (t[i] as u32)
            < 128 && lower_char(t[i]) == t[i] by {
            assert(p[i] == x[i + l]);
            crate::text::lemma_lower_char(p[i]);
        }
        assert(ascii_lower(t) =~= t);
        assert(piece_tag(x, ascii_low()) == seq![t]);
    }
}

/// Every tag an ASCII TAGS field lists is ASCII and reads back as itself.
proof fn lemma_ascii_tags(s: Seq<char>)
    requires
        ascii_text(s),
    ensures
        forall|i: int|
            0 <= i < ascii_field_tags(s).len() ==> stored_by(
                #[trigger] ascii_field_tags(s)[i],
                ascii_low(),
            ) && ascii_text(ascii_field_tags(s)[i]),
    decreases s.len(),
{
    crate::text::lemma_find_from(s, 0, comma());
    match find_from(s, 0, comma()) {
        Some(k) => {
            let x = s.take(k);
            assert forall|i: int| 0 <= i < x.len() implies #[trigger] x[i] != ',' by {
                if x[i] == ',' {
                    assert(s[i] == ',');
                    assert(s.subrange(i, i + 1) =~= comma());
                    assert(crate::text::occurs_at(s, i, comma()));
                }
            }
            assert forall|i: int| 0 <= i < x.len() implies (#[trigger] x[i] as u32) < 128 by {
                assert(x[i] == s[i]);
            }
            lemma_ascii_piece(x);
            let r = s.skip(k + 1);
            assert forall|i: int| 0 <= i < r.len() implies (#[trigger] r[i] as u32) < 128 by {
                assert(r[i] == s[i + k + 1]);
            }
            lemma_ascii_tags(r);
            let a = piece_tag(x, ascii_low());
            let b = ascii_field_tags(r);
            assert(ascii_field_tags(s) == a + b);
            assert forall|i: int| 0 <= i < ascii_field_tags(s).len() implies stored_by(
                #[trigger] ascii_field_tags(s)[i],
                ascii_low(),
            ) && ascii_text(ascii_field_tags(s)[i]) by {
                if i < a.len() {
                    assert(ascii_field_tags(s)[i] == a[i]);
                } else {
                    assert(ascii_field_tags(s)[i] == b[i - a.len()]);
                }
            }
        },
        None => {
            assert forall|i: int| 0 <= i < s.len() implies #[trigger] s[i] != ',' by {
                if s[i] == ',' {
                    assert(s.subrange(i, i + 1) =~= comma());
                    assert(crate::text::occurs_at(s, i, comma()));
                }
            }
            lemma_ascii_piece(s);
        },
    }
}

/// Tags that are each ASCII are written as an ASCII field.
proof fn lemma_join_ascii(ts: Seq<Seq<char>>)
    requires
        forall|i: int| 0 <= i < ts.len() ==> ascii_text(#[trigger] ts[i]),
    ensures
        ascii_text(join_with(ts, seq![',', ' '])),
    decreases ts.len(),
{
    if ts.len() == 1 {
        assert(ascii_text(ts[0]));
    } else if ts.len() > 1 {
        let p = ts.drop_last();
        assert forall|i: int| 0 <= i < p.len() implies ascii_text(#[trigger] p[i]) by {
            assert(p[i] == ts[i]);
        }
        lemma_join_ascii(p);
        assert(ascii_text(ts[ts.len() - 1]));
        let j = join_with(p, seq![',', ' ']);
        let w = j + seq![',', ' '] + ts.last();
        assert forall|i: int| 0 <= i < w.len() implies (#[trigger] w[i] as u32) < 128 by {
            if i >= j.len() + 2 {
                assert(w[i] == ts.last()[i - j.len() - 2]);
            } else if i < j.len() {
                assert(w[i] == j[i]);
            }
        }
    }
}

/// Normalizing an ASCII TAGS field a second time changes nothing: the
/// normalized field is ASCII again and reads back as the tags it was
/// written from.
pub proof fn lemma_ascii_normalize_stable(s: Seq<char>)
    requires
        ascii_text(s),
    ensures
        ascii_text(join_with(ascii_field_tags(s), seq![',', ' '])),
        ascii_field_tags(join_with(ascii_field_tags(s), seq![',', ' '])) == ascii_field_tags(s),
        join_with(ascii_field_tags(join_with(ascii_field_tags(s), seq![',', ' '])), seq![',', ' '])
            == join_with(ascii_field_tags(s), seq![',', ' ']),
{
    let ts = ascii_field_tags(s);
    lemma_ascii_tags(s);
    assert forall|i: int| 0 <= i < ts.len() implies stored_by(#[trigger] ts[i], ascii_low()) by {}
    assert forall|i: int| 0 <= i < ts.len() implies ascii_text(#[trigger] ts[i]) by {
        assert(stored_by(ts[i], ascii_low()));
    }
    lemma_tags_roundtrip(ts, ascii_low());
    lemma_join_ascii(ts);
}

} // verus!
