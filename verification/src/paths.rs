//! Where a note's file lives: slugged folder segments and a slugged title,
//! disambiguated by a short id when another note owns the name.

use vstd::prelude::*;
use crate::ident::short_of;
use crate::text::{
    is_ascii_alnum, lower_char, ascii_alnum, to_ascii_lower, chars_of, string_of, push_all,
    find_from, lemma_find_from, lemma_find_shift, find_exec,
};

verus! {

pub open spec fn untitled() -> Seq<char> {
    seq!['u', 'n', 't', 'i', 't', 'l', 'e', 'd']
}

/// The slug before its dashes are trimmed: ASCII alphanumerics lowercased,
/// every other run of characters one dash. `dash` says the last output was
/// a dash.
pub open spec fn slug_raw(s: Seq<char>, dash: bool) -> Seq<char>
    decreases s.len(),
{
    if s.len() == 0 {
        Seq::empty()
    } else if is_ascii_alnum(s[0]) {
        seq![lower_char(s[0])] + slug_raw(s.skip(1), false)
    } else if !dash {
        seq!['-'] + slug_raw(s.skip(1), true)
    } else {
        slug_raw(s.skip(1), true)
    }
}

/// Number of leading `c`.
pub open spec fn lead_count(s: Seq<char>, c: char) -> nat
    decreases s.len(),
{
    if s.len() > 0 && s[0] == c {
        1 + lead_count(s.drop_first(), c)
    } else {
        0
    }
}

/// Number of trailing `c`.
pub open spec fn trail_count(s: Seq<char>, c: char) -> nat
    decreases s.len(),
{
    if s.len() > 0 && s.last() == c {
        1 + trail_count(s.drop_last(), c)
    } else {
        0
    }
}

/// `str::trim_matches(c)`.
pub open spec fn trim_char(s: Seq<char>, c: char) -> Seq<char> {
    let t = s.skip(lead_count(s, c) as int);
    t.take(t.len() - trail_count(t, c))
}

/// `str::trim_matches('-')`.
pub open spec fn trim_dashes(s: Seq<char>) -> Seq<char> {
    trim_char(s, '-')
}

/// Filesystem-safe slug: ASCII alphanumerics kept (lowercased), everything
/// else collapses to single dashes, no dash at either end; `untitled` when
/// nothing is left.
pub open spec fn slug_of(s: Seq<char>) -> Seq<char> {
    let t = trim_dashes(slug_raw(s, false));
    if t.len() == 0 {
        untitled()
    } else {
        t
    }
}

/// The text a slug can be: non-empty, lowercase ASCII letters, digits and
/// single dashes, no dash at either end.
pub open spec fn is_slug(s: Seq<char>) -> bool {
    &&& s.len() > 0
    &&& forall|i: int|
        0 <= i < s.len() ==> ('a' <= #[trigger] s[i] && s[i] <= 'z') || ('0' <= s[i] && s[i]
            <= '9') || s[i] == '-'
    &&& s[0] != '-'
    &&& s.last() != '-'
    &&& forall|i: int| 0 <= i < s.len() - 1 ==> !(#[trigger] s[i] == '-' && s[i + 1] == '-')
}

proof fn lemma_lead_count(s: Seq<char>, c: char)
    ensures
        lead_count(s, c) <= s.len(),
        forall|i: int| 0 <= i < lead_count(s, c) ==> #[trigger] s[i] == c,
        lead_count(s, c) < s.len() ==> s[lead_count(s, c) as int] != c,
    decreases s.len(),
{
    if s.len() > 0 && s[0] == c {
        lemma_lead_count(s.drop_first(), c);
        assert forall|i: int| 0 <= i < lead_count(s, c) implies #[trigger] s[i] == c by {
            if i > 0 {
                assert(s[i] == s.drop_first()[i - 1]);
            }
        }
    }
}

proof fn lemma_trail_count(s: Seq<char>, c: char)
    ensures
        trail_count(s, c) <= s.len(),
        forall|i: int| s.len() - trail_count(s, c) <= i < s.len() ==> #[trigger] s[i] == c,
        trail_count(s, c) < s.len() ==> s[s.len() - trail_count(s, c) - 1] != c,
    decreases s.len(),
{
    if s.len() > 0 && s.last() == c {
        lemma_trail_count(s.drop_last(), c);
        assert forall|i: int| s.len() - trail_count(s, c) <= i < s.len() implies #[trigger] s[i]
            == c by {
            if i < s.len() - 1 {
                assert(s[i] == s.drop_last()[i]);
            }
        }
    }
}

/// Chars of a raw slug: lowercase alphanumerics and dashes, never two dashes
/// in a row, and no leading dash after a dash.
proof fn lemma_slug_raw(s: Seq<char>, dash: bool)
    ensures
        ({
            let r = slug_raw(s, dash);
            &&& forall|i: int|
                0 <= i < r.len() ==> ('a' <= #[trigger] r[i] && r[i] <= 'z') || ('0' <= r[i]
                    && r[i] <= '9') || r[i] == '-'
            &&& forall|i: int| 0 <= i < r.len() - 1 ==> !(#[trigger] r[i] == '-' && r[i + 1] == '-')
            &&& (dash && r.len() > 0) ==> r[0] != '-'
        }),
    decreases s.len(),
{
    if s.len() > 0 {
        let t = s.skip(1);
        if is_ascii_alnum(s[0]) {
            lemma_slug_raw(t, false);
            let rest = slug_raw(t, false);
            let r = seq![lower_char(s[0])] + rest;
            assert forall|i: int| 0 <= i < r.len() implies ('a' <= #[trigger] r[i] && r[i] <= 'z')
                || ('0' <= r[i] && r[i] <= '9') || r[i] == '-' by {
                if i > 0 {
                    assert(r[i] == rest[i - 1]);
                } else {
                    assert(('A' <= s[0] && s[0] <= 'Z') ==> ((s[0] as u32) + 32) as char <= 'z');
                }
            }
            assert forall|i: int| 0 <= i < r.len() - 1 implies !(#[trigger] r[i] == '-' && r[i + 1]
                == '-') by {
                if i > 0 {
                    assert(r[i] == rest[i - 1]);
                    assert(r[i + 1] == rest[i]);
                }
            }
        } else if !dash {
            lemma_slug_raw(t, true);
            let rest = slug_raw(t, true);
            let r = seq!['-'] + rest;
            assert forall|i: int| 0 <= i < r.len() implies ('a' <= #[trigger] r[i] && r[i] <= 'z')
                || ('0' <= r[i] && r[i] <= '9') || r[i] == '-' by {
                if i > 0 {
                    assert(r[i] == rest[i - 1]);
                }
            }
            assert forall|i: int| 0 <= i < r.len() - 1 implies !(#[trigger] r[i] == '-' && r[i + 1]
                == '-') by {
                if i > 0 {
                    assert(r[i] == rest[i - 1]);
                }
                assert(r[i + 1] == rest[i]);
            }
        } else {
            lemma_slug_raw(t, true);
        }
    }
}

/// Every slug is slug-shaped and never empty.
pub proof fn lemma_slug_shape(s: Seq<char>)
    ensures
        is_slug(slug_of(s)),
{
    let r = slug_raw(s, false);
    lemma_slug_raw(s, false);
    let a = lead_count(r, '-');
    lemma_lead_count(r, '-');
    let t = r.skip(a as int);
    let b = trail_count(t, '-');
    lemma_trail_count(t, '-');
    let u = t.take(t.len() - b);
    if u.len() == 0 {
        let w = untitled();
        assert(w[0] == 'u' && w[1] == 'n' && w[2] == 't' && w[3] == 'i' && w[4] == 't' && w[5]
            == 'l' && w[6] == 'e' && w[7] == 'd');
        assert forall|i: int| 0 <= i < w.len() implies ('a' <= #[trigger] w[i] && w[i] <= 'z')
            || ('0' <= w[i] && w[i] <= '9') || w[i] == '-' by {}
    } else {
        assert forall|i: int| 0 <= i < u.len() implies ('a' <= #[trigger] u[i] && u[i] <= 'z') || (
        '0' <= u[i] && u[i] <= '9') || u[i] == '-' by {
            assert(u[i] == r[i + a]);
        }
        assert forall|i: int| 0 <= i < u.len() - 1 implies !(#[trigger] u[i] == '-' && u[i + 1]
            == '-') by {
            assert(u[i] == r[i + a]);
            assert(u[i + 1] == r[i + 1 + a]);
        }
        assert(u[0] == t[0]);
        assert(u.last() == t[t.len() - b - 1]);
    }
}

/// A slug-shaped text passes through the raw slugging unchanged.
proof fn lemma_slug_raw_fixed(s: Seq<char>, dash: bool)
    requires
        forall|i: int|
            0 <= i < s.len() ==> ('a' <= #[trigger] s[i] && s[i] <= 'z') || ('0' <= s[i] && s[i]
                <= '9') || s[i] == '-',
        forall|i: int| 0 <= i < s.len() - 1 ==> !(#[trigger] s[i] == '-' && s[i + 1] == '-'),
        dash ==> (s.len() > 0 ==> s[0] != '-'),
    ensures
        slug_raw(s, dash) == s,
    decreases s.len(),
{
    if s.len() > 0 {
        let t = s.skip(1);
        assert forall|i: int| 0 <= i < t.len() implies ('a' <= #[trigger] t[i] && t[i] <= 'z') || (
        '0' <= t[i] && t[i] <= '9') || t[i] == '-' by {
            assert(t[i] == s[i + 1]);
        }
        assert forall|i: int| 0 <= i < t.len() - 1 implies !(#[trigger] t[i] == '-' && t[i + 1]
            == '-') by {
            assert(t[i] == s[i + 1]);
            assert(t[i + 1] == s[i + 2]);
        }
        if s[0] == '-' {
            if t.len() > 0 {
                assert(t[0] == s[1]);
            }
            lemma_slug_raw_fixed(t, true);
        } else {
            lemma_slug_raw_fixed(t, false);
        }
        assert(seq![s[0]] + t =~= s);
    }
}

/// Slugging is idempotent: a slug is its own slug, so a saved file name is
/// recognized as the name its title slugs to.
pub proof fn lemma_slug_idempotent(s: Seq<char>)
    ensures
        slug_of(slug_of(s)) == slug_of(s),
{
    let t = slug_of(s);
    lemma_slug_shape(s);
    lemma_slug_fixed(t);
}

/// Slug-shaped text is its own slug.
pub proof fn lemma_slug_fixed(t: Seq<char>)
    requires
        is_slug(t),
    ensures
        slug_of(t) == t,
{
    lemma_slug_raw_fixed(t, false);
    lemma_lead_count(t, '-');
    assert(lead_count(t, '-') == 0);
    assert(t.skip(0) =~= t);
    lemma_trail_count(t, '-');
    assert(trail_count(t, '-') == 0);
    assert(t.take(t.len() as int) =~= t);
}

/// Filesystem-safe slug: ascii alphanumerics kept, everything else collapses
/// to single dashes. Never empty.
pub fn slug(s: &str) -> (r: String)
    ensures
        r@ == slug_of(s@),
{
    let v = chars_of(s);
    let r = slug_vec(&v);
    string_of(&r)
}

/// `slug` on a character vector.
pub fn slug_vec(v: &Vec<char>) -> (r: Vec<char>)
    ensures
        r@ == slug_of(v@),
{
    let mut out: Vec<char> = Vec::new();
    let mut dash = false;
    let mut i: usize = 0;
    assert(v@.skip(0) =~= v@);
    while i < v.len()
        invariant
            i <= v.len(),
            out@ + slug_raw(v@.skip(i as int), dash) == slug_raw(v@, false),
        decreases v.len() - i,
    {
        let ghost rest = v@.skip(i as int);
        assert(rest.skip(1) =~= v@.skip(i + 1));
        let ch = v[i];
        if ascii_alnum(ch) {
            out.push(to_ascii_lower(ch));
            dash = false;
        } else if !dash {
            out.push('-');
            dash = true;
        }
        i = i + 1;
    }
    assert(v@.skip(i as int) =~= Seq::<char>::empty());
    assert(out@ + Seq::<char>::empty() =~= out@);
    let (a, b) = trim_char_bounds(&out, '-');
    if a == b {
        let u: Vec<char> = vec!['u', 'n', 't', 'i', 't', 'l', 'e', 'd'];
        assert(u@ =~= untitled());
        u
    } else {
        let mut r: Vec<char> = Vec::new();
        crate::text::push_range(&mut r, &out, a, b);
        assert(r@ =~= out@.subrange(a as int, b as int));
        r
    }
}

/// Bounds of `trim_matches(c)`.
pub fn trim_char_bounds(v: &Vec<char>, c: char) -> (r: (usize, usize))
    ensures
        r.0 <= r.1 <= v.len(),
        v@.subrange(r.0 as int, r.1 as int) == trim_char(v@, c),
{
    let mut a: usize = 0;
    while a < v.len() && v[a] == c
        invariant
            a <= v.len(),
            forall|i: int| 0 <= i < a ==> v@[i] == c,
        decreases v.len() - a,
    {
        a = a + 1;
    }
    proof {
        lemma_lead_count_unique(v@, c, a as int);
    }
    let mut b: usize = v.len();
    while b > a && v[b - 1] == c
        invariant
            a <= b <= v.len(),
            forall|i: int| b <= i < v.len() ==> v@[i] == c,
        decreases b,
    {
        b = b - 1;
    }
    proof {
        let t = v@.skip(a as int);
        let k = v.len() - b;
        assert forall|i: int| t.len() - k <= i < t.len() implies t[i] == c by {
            assert(t[i] == v@[i + a]);
        }
        if k < t.len() {
            assert(t[t.len() - k - 1] == v@[b - 1]);
        }
        lemma_trail_count_unique(t, c, k as int);
        assert(v@.subrange(a as int, b as int) =~= t.take(t.len() - k));
    }
    (a, b)
}

proof fn lemma_lead_count_unique(s: Seq<char>, c: char, k: int)
    requires
        0 <= k <= s.len(),
        forall|i: int| 0 <= i < k ==> s[i] == c,
        k < s.len() ==> s[k] != c,
    ensures
        lead_count(s, c) == k,
    decreases s.len(),
{
    if k > 0 {
        assert forall|i: int| 0 <= i < k - 1 implies s.drop_first()[i] == c by {
            assert(s.drop_first()[i] == s[i + 1]);
        }
        if k - 1 < s.len() - 1 {
            assert(s.drop_first()[k - 1] == s[k]);
        }
        lemma_lead_count_unique(s.drop_first(), c, k - 1);
    }
}

proof fn lemma_trail_count_unique(s: Seq<char>, c: char, k: int)
    requires
        0 <= k <= s.len(),
        forall|i: int| s.len() - k <= i < s.len() ==> s[i] == c,
        k < s.len() ==> s[s.len() - k - 1] != c,
    ensures
        trail_count(s, c) == k,
    decreases s.len(),
{
    if k > 0 {
        let t = s.drop_last();
        assert forall|i: int| t.len() - (k - 1) <= i < t.len() implies t[i] == c by {
            assert(t[i] == s[i]);
        }
        if k - 1 < t.len() {
            assert(t[t.len() - (k - 1) - 1] == s[s.len() - k - 1]);
        }
        lemma_trail_count_unique(t, c, k - 1);
    }
}


pub open spec fn slash() -> Seq<char> {
    seq!['/']
}

/// One piece of a folder path: its slug, or nothing for an empty piece.
pub open spec fn seg_item(x: Seq<char>) -> Seq<Seq<char>> {
    if x.len() > 0 {
        seq![slug_of(x)]
    } else {
        Seq::empty()
    }
}

/// The directories a folder names: split at `/`, empty pieces dropped, each
/// piece slugged.
pub open spec fn dir_segments(s: Seq<char>) -> Seq<Seq<char>>
    decreases s.len(),
{
    match find_from(s, 0, slash()) {
        Some(k) => {
            proof {
                lemma_find_from(s, 0, slash());
            }
            seg_item(s.take(k)) + dir_segments(s.skip(k + 1))
        },
        None => seg_item(s),
    }
}

/// Pieces joined with `/`.
pub open spec fn join_slash(ss: Seq<Seq<char>>) -> Seq<char>
    decreases ss.len(),
{
    if ss.len() == 0 {
        Seq::empty()
    } else if ss.len() == 1 {
        ss[0]
    } else {
        join_slash(ss.drop_last()) + slash() + ss.last()
    }
}

/// The file stem a note is saved under: its title's slug, with the short id
/// appended when another note already owns that name.
pub open spec fn file_stem(title: Seq<char>, id: Seq<char>, clash: bool) -> Seq<char> {
    if clash {
        slug_of(title) + seq!['-'] + short_of(id)
    } else {
        slug_of(title)
    }
}

/// A file at `stem` in directory `rel` (relative, `/`-joined) already is where
/// a note with this title, id and folder belongs.
pub open spec fn path_fits(
    stem: Seq<char>,
    rel: Seq<char>,
    title: Seq<char>,
    id: Seq<char>,
    folder: Seq<char>,
) -> bool {
    (stem == file_stem(title, id, false) || stem == file_stem(title, id, true)) && rel
        == join_slash(dir_segments(folder))
}

/// The slugged directories of a note's folder, outermost first.
pub fn note_dir(folder: &str) -> (r: Vec<String>)
    ensures
        r.len() == dir_segments(folder@).len(),
        forall|i: int| 0 <= i < r.len() ==> #[trigger] r[i]@ == dir_segments(folder@)[i],
{
    let v = chars_of(folder);
    let slash_v: Vec<char> = vec!['/'];
    assert(slash_v@ =~= slash());
    let mut out: Vec<String> = Vec::new();
    let ghost mut acc: Seq<Seq<char>> = Seq::empty();
    let mut pos: usize = 0;
    let mut finished = false;
    assert(v@.skip(0) =~= v@);
    while !finished
        invariant
            pos <= v.len(),
            slash_v@ == slash(),
            out.len() == acc.len(),
            forall|i: int| 0 <= i < out.len() ==> #[trigger] out[i]@ == acc[i],
            !finished ==> dir_segments(v@) == acc + dir_segments(v@.skip(pos as int)),
            finished ==> dir_segments(v@) == acc,
        decreases v.len() - pos + (if finished { 0int } else { 1int }),
    {
        let ghost rest = v@.skip(pos as int);
        proof {
            assert(v@ =~= v@.take(pos as int) + rest);
            lemma_find_shift(v@.take(pos as int), rest, 0, slash());
            lemma_find_from(rest, 0, slash());
        }
        let end = match find_exec(&v, pos, &slash_v) {
            Some(k) => k,
            None => v.len(),
        };
        let mut piece: Vec<char> = Vec::new();
        crate::text::push_range(&mut piece, &v, pos, end);
        proof {
            assert(piece@ =~= rest.take(end - pos));
        }
        let ghost item = seg_item(piece@);
        if piece.len() > 0 {
            let sv = slug_vec(&piece);
            out.push(string_of(&sv));
        }
        proof {
            if end < v.len() {
                assert(rest.skip(end - pos + 1) =~= v@.skip(end + 1));
                assert(acc + (item + dir_segments(v@.skip(end + 1))) =~= (acc + item)
                    + dir_segments(v@.skip(end + 1)));
            } else {
                assert(rest =~= rest.take(end - pos));
            }
            acc = acc + item;
        }
        if end < v.len() {
            pos = end + 1;
        } else {
            pos = v.len();
            finished = true;
        }
    }
    out
}

/// `ss` joined with `/`.
pub fn join_segments(ss: &Vec<String>) -> (r: String)
    ensures
        r@ == join_slash(ss@.map_values(|x: String| x@)),
{
    let ghost vs = ss@.map_values(|x: String| x@);
    let mut out: Vec<char> = Vec::new();
    let mut i: usize = 0;
    while i < ss.len()
        invariant
            i <= ss.len(),
            vs == ss@.map_values(|x: String| x@),
            out@ == join_slash(vs.take(i as int)),
        decreases ss.len() - i,
    {
        if i > 0 {
            out.push('/');
        }
        let piece = chars_of(ss[i].as_str());
        crate::text::push_all(&mut out, &piece);
        proof {
            let t = vs.take(i + 1);
            assert(t.drop_last() =~= vs.take(i as int));
            assert(t.last() == ss[i as int]@);
            if i == 0 {
                assert(out@ =~= t[0]);
            } else {
                assert(out@ =~= join_slash(t.drop_last()) + slash() + t.last());
            }
        }
        i = i + 1;
    }
    assert(vs.take(ss.len() as int) =~= vs);
    string_of(&out)
}

/// The note's folder as it lies on disk: its slugged directories joined with `/`.
pub fn disk_folder(folder: &str) -> (r: String)
    ensures
        r@ == join_slash(dir_segments(folder@)),
{
    let d = note_dir(folder);
    let r = join_segments(&d);
    assert(d@.map_values(|x: String| x@) =~= dir_segments(folder@));
    r
}

/// File name (`<stem>.md`) a note is saved under; `clash` when another note
/// already owns the plain name.
pub fn note_file_name(title: &str, id: &str, clash: bool) -> (r: String)
    ensures
        r@ == file_stem(title@, id@, clash) + seq!['.', 'm', 'd'],
{
    let mut out = chars_of(slug(title).as_str());
    if clash {
        out.push('-');
        push_all(&mut out, &chars_of(crate::ident::short_id(id).as_str()));
    }
    out.push('.');
    out.push('m');
    out.push('d');
    assert(out@ =~= file_stem(title@, id@, clash) + seq!['.', 'm', 'd']);
    string_of(&out)
}

/// Does a file with stem `stem`, lying in `rel_folder` (its directory under
/// the workspace, `/`-joined), already sit where `note` belongs? Used to avoid
/// renaming a file on every keystroke when the title is unchanged.
pub fn title_matches_path(stem: &str, rel_folder: &str, note: &crate::note::Note) -> (r: bool)
    ensures
        r == path_fits(stem@, rel_folder@, note.title@, note.id@, note.folder@),
{
    let sv = chars_of(stem);
    let plain = chars_of(slug(note.title.as_str()).as_str());
    let mut suffixed = plain.clone();
    assert(suffixed@ == plain@);
    suffixed.push('-');
    push_all(&mut suffixed, &chars_of(crate::ident::short_id(note.id.as_str()).as_str()));
    assert(suffixed@ =~= file_stem(note.title@, note.id@, true));
    let name_ok = crate::text::vec_eq(&sv, &plain) || crate::text::vec_eq(&sv, &suffixed);
    let want = chars_of(disk_folder(note.folder.as_str()).as_str());
    let have = chars_of(rel_folder);
    name_ok && crate::text::vec_eq(&have, &want)
}

/// A note saved under its own target name is recognized as already in place.
pub proof fn lemma_target_path_fits(title: Seq<char>, id: Seq<char>, folder: Seq<char>, clash: bool)
    ensures
        path_fits(file_stem(title, id, clash), join_slash(dir_segments(folder)), title, id, folder),
{
}

/// A folder written in its on-disk form: `/`-separated pieces, each a slug.
pub open spec fn canonical_folder(s: Seq<char>) -> bool
    decreases s.len(),
{
    match find_from(s, 0, slash()) {
        Some(k) => {
            proof {
                lemma_find_from(s, 0, slash());
            }
            is_slug(s.take(k)) && canonical_folder(s.skip(k + 1))
        },
        None => is_slug(s),
    }
}

proof fn lemma_join_cons(a: Seq<char>, r: Seq<Seq<char>>)
    requires
        r.len() > 0,
    ensures
        join_slash(seq![a] + r) == a + slash() + join_slash(r),
    decreases r.len(),
{
    let s = seq![a] + r;
    if r.len() == 1 {
        assert(s.drop_last() =~= seq![a]);
        assert(join_slash(seq![a]) == a);
        assert(join_slash(r) == r[0]);
        assert(s.last() == r[0]);
        assert(join_slash(s) == join_slash(s.drop_last()) + slash() + s.last());
    } else {
        lemma_join_cons(a, r.drop_last());
        assert(s.drop_last() =~= seq![a] + r.drop_last());
        assert(s.last() == r.last());
        assert(join_slash(s) == join_slash(s.drop_last()) + slash() + s.last());
        assert(join_slash(r) == join_slash(r.drop_last()) + slash() + r.last());
        assert(a + slash() + join_slash(r.drop_last()) + slash() + r.last() =~= a + slash() + (
        join_slash(r.drop_last()) + slash() + r.last()));
    }
}

/// A folder already in its on-disk form is where its notes are read back
/// from: slugging and joining its pieces gives it unchanged.
pub proof fn lemma_canonical_folder_fixed(s: Seq<char>)
    requires
        canonical_folder(s),
    ensures
        join_slash(dir_segments(s)) == s,
        dir_segments(s).len() > 0,
    decreases s.len(),
{
    lemma_find_from(s, 0, slash());
    match find_from(s, 0, slash()) {
        Some(k) => {
            let a = s.take(k);
            let rest = s.skip(k + 1);
            lemma_slug_fixed(a);
            lemma_canonical_folder_fixed(rest);
            lemma_join_cons(a, dir_segments(rest));
            assert(seg_item(a) == seq![a]);
            assert(s.subrange(k, k + 1) =~= slash());
            assert(s =~= a + slash() + rest);
        },
        None => {
            lemma_slug_fixed(s);
        },
    }
}

/// What a directory entry met while scanning the workspace is.
#[derive(Clone, Copy, PartialEq, Eq, Debug, Structural)]
pub enum EntryKind {
    /// Hidden (dot-named) entries and non-note files.
    Skip,
    /// A directory to scan.
    Descend,
    /// A `.md` note file.
    NoteFile,
}

pub open spec fn entry_kind(name: Seq<char>, is_dir: bool) -> EntryKind {
    if name.len() > 0 && name[0] == '.' {
        EntryKind::Skip
    } else if is_dir {
        EntryKind::Descend
    } else if name.len() >= 3 && name.skip(name.len() - 3) == seq!['.', 'm', 'd'] && !(
    name.len() >= 7 && name.skip(name.len() - 7) == seq!['.', 'm', 'd', '.', 't', 'm', 'p']) {
        EntryKind::NoteFile
    } else {
        EntryKind::Skip
    }
}

/// Classifies a workspace entry: dot-named entries are skipped, directories
/// are scanned, `*.md` files (not our `*.md.tmp` temp files) are notes.
pub fn classify_entry(name: &str, is_dir: bool) -> (k: EntryKind)
    ensures
        k == entry_kind(name@, is_dir),
{
    let v = chars_of(name);
    if v.len() > 0 && v[0] == '.' {
        return EntryKind::Skip;
    }
    if is_dir {
        return EntryKind::Descend;
    }
    let md: Vec<char> = vec!['.', 'm', 'd'];
    let tmp: Vec<char> = vec!['.', 'm', 'd', '.', 't', 'm', 'p'];
    let ends_md = v.len() >= 3 && crate::text::occurs_at_exec(&v, v.len() - 3, &md);
    let ends_tmp = v.len() >= 7 && crate::text::occurs_at_exec(&v, v.len() - 7, &tmp);
    proof {
        if v.len() >= 3 {
            assert(v@.subrange(v.len() - 3, v.len() as int) =~= v@.skip(v.len() - 3));
        }
        if v.len() >= 7 {
            assert(v@.subrange(v.len() - 7, v.len() as int) =~= v@.skip(v.len() - 7));
        }
        assert(md@ =~= seq!['.', 'm', 'd']);
        assert(tmp@ =~= seq!['.', 'm', 'd', '.', 't', 'm', 'p']);
    }
    if ends_md && !ends_tmp {
        EntryKind::NoteFile
    } else {
        EntryKind::Skip
    }
}

pub open spec fn hex_char(d: nat) -> char {
    if d < 10 {
        (48 + d) as char
    } else {
        (87 + d) as char
    }
}

/// The last `n` hex digits of `h`, zero-padded, most significant first.
pub open spec fn hex_digits(h: nat, n: nat) -> Seq<char>
    decreases n,
{
    if n == 0 {
        Seq::empty()
    } else {
        hex_digits(h / 16, (n - 1) as nat).push(hex_char(h % 16))
    }
}

/// Per-workspace index file name, `index-<16 hex digits of hash>.db`.
pub fn index_file_name(hash: u64) -> (r: String)
    ensures
        r@ == seq!['i', 'n', 'd', 'e', 'x', '-'] + hex_digits(hash as nat, 16) + seq!['.', 'd', 'b'],
{
    let mut digits: Vec<char> = Vec::new();
    let mut h: u64 = hash;
    let mut n: usize = 0;
    assert(hex_digits(hash as nat, 16) + digits@ =~= hex_digits(hash as nat, 16));
    while n < 16
        invariant
            n <= 16,
            hex_digits(h as nat, (16 - n) as nat) + digits@ == hex_digits(hash as nat, 16),
        decreases 16 - n,
    {
        let d: u64 = h % 16;
        let c = hex_digit(d);
        let ghost old_digits = digits@;
        digits.insert(0, c);
        proof {
            assert(hex_digits(h as nat, (16 - n) as nat) == hex_digits((h / 16) as nat, (16 - n
                - 1) as nat).push(c));
            assert(hex_digits((h / 16) as nat, (16 - n - 1) as nat) + digits@ =~= hex_digits(
                h as nat,
                (16 - n) as nat,
            ) + old_digits);
        }
        h = h / 16;
        n = n + 1;
    }
    assert(hex_digits(h as nat, 0) + digits@ =~= digits@);
    let mut out: Vec<char> = vec!['i', 'n', 'd', 'e', 'x', '-'];
    push_all(&mut out, &digits);
    out.push('.');
    out.push('d');
    out.push('b');
    assert(out@ =~= seq!['i', 'n', 'd', 'e', 'x', '-'] + hex_digits(hash as nat, 16) + seq!['.', 'd', 'b']);
    string_of(&out)
}

fn hex_digit(d: u64) -> (c: char)
    requires
        d < 16,
    ensures
        c == hex_char(d as nat),
{
    if d < 10 {
        let b: u8 = 48u8 + d as u8;
        b as char
    } else {
        let b: u8 = 87u8 + d as u8;
        b as char
    }
}

/// The disambiguated name never coincides with the plain one, so a note
/// moved aside for a same-titled note cannot clobber it.
pub proof fn lemma_clash_name_differs(title: Seq<char>, id: Seq<char>)
    ensures
        file_stem(title, id, true) != file_stem(title, id, false),
{
    assert(file_stem(title, id, true).len() > file_stem(title, id, false).len());
}

/// The plain file name is taken by a different note (its index owner is
/// another id), so the note goes under the disambiguated name.
pub fn name_clash(owner: &Option<String>, id: &str) -> (r: bool)
    ensures
        r == (match owner {
            Some(o) => o@ != id@,
            None => false,
        }),
{
    match owner {
        None => false,
        Some(o) => !crate::text::vec_eq(&chars_of(o.as_str()), &chars_of(id)),
    }
}

} // verus!
