//! `[[wiki links]]`: extracting targets, finding backlinks, and repointing
//! links when a note is renamed.

use vstd::prelude::*;
use crate::note::{Note, NoteView};
use crate::text::{
    ascii_lower, occurs_at, contains_seq, find_from, lemma_find_from, lacks, trim, chars_of,
    string_of, string_of_range, push_all, ascii_lower_vec, occurs_at_exec, find_exec,
    contains_exec, trim_range, trim_str, vec_eq,
};

verus! {

/// `[[t]]`.
pub open spec fn link_of(t: Seq<char>) -> Seq<char> {
    seq!['[', '['] + t + seq![']', ']']
}

/// `body` with every `needle` match of its ASCII-lowercased text replaced by
/// `with`, scanning left to right without overlap.
pub open spec fn relink(body: Seq<char>, needle: Seq<char>, with: Seq<char>) -> Seq<char>
    decreases body.len(),
{
    if body.len() == 0 {
        Seq::empty()
    } else if needle.len() > 0 && occurs_at(ascii_lower(body), 0, needle) {
        with + relink(body.skip(needle.len() as int), needle, with)
    } else {
        seq![body[0]] + relink(body.skip(1), needle, with)
    }
}

/// The needle that finds links to `title`, case-insensitively.
pub open spec fn link_needle(title: Seq<char>) -> Seq<char> {
    link_of(ascii_lower(title))
}

/// Every `[[old]]` (title compared ASCII-case-insensitively) replaced with
/// `[[new]]`; `None` when nothing matched.
pub open spec fn replace_link_spec(body: Seq<char>, old: Seq<char>, new: Seq<char>) -> Option<
    Seq<char>,
> {
    if contains_seq(ascii_lower(body), link_needle(old)) {
        Some(relink(body, link_needle(old), link_of(new)))
    } else {
        None
    }
}

proof fn lemma_lower_skip(s: Seq<char>, k: int)
    requires
        0 <= k <= s.len(),
    ensures
        ascii_lower(s.skip(k)) == ascii_lower(s).skip(k),
{
    assert(ascii_lower(s.skip(k)) =~= ascii_lower(s).skip(k));
}

fn link_vec(t: &Vec<char>) -> (r: Vec<char>)
    ensures
        r@ == link_of(t@),
{
    let mut r: Vec<char> = vec!['[', '['];
    push_all(&mut r, t);
    r.push(']');
    r.push(']');
    assert(r@ =~= link_of(t@));
    r
}

/// Replace every `[[old]]` (the title compared case-insensitively, brackets
/// literal) with `[[new]]`. Returns `None` when nothing matched so callers can
/// skip rewriting the file.
pub fn replace_link(body: &str, old: &str, new: &str) -> (r: Option<String>)
    ensures
        match r {
            Some(s) => replace_link_spec(body@, old@, new@) == Some(s@),
            None => replace_link_spec(body@, old@, new@) is None,
        },
{
    let b = chars_of(body);
    let needle = link_vec(&ascii_lower_vec(&chars_of(old)));
    let lower = ascii_lower_vec(&b);
    if !contains_exec(&lower, &needle) {
        return None;
    }
    let with = link_vec(&chars_of(new));
    let ghost target = relink(b@, needle@, with@);
    let mut out: Vec<char> = Vec::new();
    let mut i: usize = 0;
    assert(b@.skip(0) =~= b@);
    while i < b.len()
        invariant
            i <= b.len(),
            lower@ == ascii_lower(b@),
            needle@.len() >= 4,
            out@ + relink(b@.skip(i as int), needle@, with@) == target,
        decreases b.len() - i,
    {
        let ghost rest = b@.skip(i as int);
        proof {
            lemma_lower_skip(b@, i as int);
            if i + needle@.len() <= b.len() {
                assert(ascii_lower(rest).subrange(0, needle@.len() as int) =~= ascii_lower(
                    b@,
                ).subrange(i as int, i + needle@.len()));
            }
        }
        let ghost prev = out@;
        if occurs_at_exec(&lower, i, &needle) {
            push_all(&mut out, &with);
            proof {
                assert(rest.skip(needle@.len() as int) =~= b@.skip(i + needle@.len()));
                assert(out@ + relink(b@.skip(i + needle@.len()), needle@, with@) =~= prev + relink(
                    rest,
                    needle@,
                    with@,
                ));
            }
            i = i + needle.len();
        } else {
            out.push(b[i]);
            proof {
                assert(rest.skip(1) =~= b@.skip(i + 1));
                assert(out@ + relink(b@.skip(i + 1), needle@, with@) =~= prev + relink(
                    rest,
                    needle@,
                    with@,
                ));
            }
            i = i + 1;
        }
    }
    assert(b@.skip(i as int) =~= Seq::<char>::empty());
    assert(out@ + Seq::<char>::empty() =~= out@);
    Some(string_of(&out))
}

/// A body that links to a title, compared case-insensitively.
pub open spec fn links_to(body: Seq<char>, title: Seq<char>) -> bool {
    contains_seq(ascii_lower(body), link_needle(title))
}

proof fn lemma_lower_link(t: Seq<char>)
    ensures
        ascii_lower(link_of(t)) == link_of(ascii_lower(t)),
{
    assert(ascii_lower(link_of(t)) =~= link_of(ascii_lower(t)));
}

/// Where the needle occurs, the rewrite holds `with`.
proof fn lemma_relink_contains(body: Seq<char>, needle: Seq<char>, with: Seq<char>)
    requires
        needle.len() > 0,
        contains_seq(ascii_lower(body), needle),
    ensures
        contains_seq(relink(body, needle, with), with),
    decreases body.len(),
{
    let r = relink(body, needle, with);
    let j = choose|j: int| occurs_at(ascii_lower(body), j, needle);
    if occurs_at(ascii_lower(body), 0, needle) {
        assert(r.subrange(0, with.len() as int) =~= with);
        assert(occurs_at(r, 0, with));
    } else {
        assert(j >= 1);
        let t = body.skip(1);
        lemma_lower_skip(body, 1);
        assert(ascii_lower(t).subrange(j - 1, j - 1 + needle.len()) =~= ascii_lower(body).subrange(
            j,
            j + needle.len(),
        ));
        assert(occurs_at(ascii_lower(t), j - 1, needle));
        lemma_relink_contains(t, needle, with);
        let rt = relink(t, needle, with);
        let k = choose|k: int| occurs_at(rt, k, with);
        assert(r == seq![body[0]] + rt);
        assert(r.subrange(k + 1, k + 1 + with.len()) =~= rt.subrange(k, k + with.len()));
        assert(occurs_at(r, k + 1, with));
    }
}

/// A body rewritten for a rename links to the new title: the note shows up
/// among the new title's backlinks.
pub proof fn lemma_rename_keeps_link(body: Seq<char>, old: Seq<char>, new: Seq<char>)
    requires
        links_to(body, old),
    ensures
        replace_link_spec(body, old, new) matches Some(b) && links_to(b, new),
{
    let needle = link_needle(old);
    let with = link_of(new);
    lemma_relink_contains(body, needle, with);
    let r = relink(body, needle, with);
    let k = choose|k: int| occurs_at(r, k, with);
    lemma_lower_link(new);
    assert(ascii_lower(r).subrange(k, k + with.len()) =~= ascii_lower(r.subrange(k, k + with.len())));
    assert(occurs_at(ascii_lower(r), k, link_needle(new)));
}

// ---------------------------------------------------------------------------
// Link targets
// ---------------------------------------------------------------------------

pub open spec fn close_br() -> Seq<char> {
    seq![']', ']']
}

/// `[[target]]` titles from position `i` on. Targets are single-line and
/// trimmed; `[[ ]]` and unterminated `[[` are ignored.
pub open spec fn wiki_from(s: Seq<char>, i: int) -> Seq<Seq<char>>
    decreases s.len() - i,
{
    if i < 0 || i + 1 >= s.len() {
        Seq::empty()
    } else if s[i] == '[' && s[i + 1] == '[' && find_from(s, i + 2, close_br()) is Some {
        let e = find_from(s, i + 2, close_br())->0;
        proof {
            lemma_find_from(s, i + 2, close_br());
        }
        let inner = s.subrange(i + 2, e);
        let t = trim(inner);
        (if lacks(inner, '\n') && t.len() > 0 {
            seq![t]
        } else {
            Seq::empty()
        }) + wiki_from(s, e + 2)
    } else {
        wiki_from(s, i + 1)
    }
}

/// Every extracted target is a non-empty single trimmed line.
pub proof fn lemma_wiki_targets_shape(s: Seq<char>, i: int)
    requires
        0 <= i,
    ensures
        forall|k: int|
            0 <= k < wiki_from(s, i).len() ==> {
                let t = #[trigger] wiki_from(s, i)[k];
                &&& t.len() > 0
                &&& lacks(t, '\n')
                &&& trim(t) == t
            },
    decreases s.len() - i,
{
    if i + 1 < s.len() {
        if s[i] == '[' && s[i + 1] == '[' && find_from(s, i + 2, close_br()) is Some {
            let e = find_from(s, i + 2, close_br())->0;
            lemma_find_from(s, i + 2, close_br());
            lemma_wiki_targets_shape(s, e + 2);
            let inner = s.subrange(i + 2, e);
            crate::text::lemma_trim_idempotent(inner);
            let item = if lacks(inner, '\n') && trim(inner).len() > 0 {
                seq![trim(inner)]
            } else {
                Seq::empty()
            };
            let w = wiki_from(s, i);
            let rest = wiki_from(s, e + 2);
            assert(w == item + rest);
            assert forall|k: int| 0 <= k < w.len() implies {
                let t = #[trigger] w[k];
                &&& t.len() > 0
                &&& lacks(t, '\n')
                &&& trim(t) == t
            } by {
                if k < item.len() {
                    assert(w[k] == trim(inner));
                } else {
                    assert(w[k] == rest[k - item.len()]);
                }
            }
        } else {
            lemma_wiki_targets_shape(s, i + 1);
            assert(wiki_from(s, i) == wiki_from(s, i + 1));
        }
    } else {
        assert(wiki_from(s, i) =~= Seq::<Seq<char>>::empty());
    }
}

/// Extract `[[target]]` titles from note text. Targets are single-line and
/// trimmed; `[[ ]]` and unterminated `[[` are ignored.
pub fn wiki_targets(body: &str) -> (r: Vec<String>)
    ensures
        r@.map_values(|x: String| x@) == wiki_from(body@, 0),
{
    let s = chars_of(body);
    let close_v: Vec<char> = vec![']', ']'];
    assert(close_v@ =~= close_br());
    let mut out: Vec<String> = Vec::new();
    let mut i: usize = 0;
    while s.len() > 1 && i < s.len() - 1
        invariant
            i <= s.len(),
            close_v@ == close_br(),
            out@.map_values(|x: String| x@) + wiki_from(s@, i as int) == wiki_from(s@, 0),
        decreases s.len() - i,
    {
        if s[i] == '[' && s[i + 1] == '[' {
            proof {
                lemma_find_from(s@, i + 2, close_br());
            }
            match find_exec(&s, i + 2, &close_v) {
                Some(e) => {
                    let ghost before = out@.map_values(|x: String| x@);
                    let mut has_nl = false;
                    let mut j = i + 2;
                    while j < e
                        invariant
                            i + 2 <= j <= e <= s.len(),
                            has_nl == !lacks(s@.subrange(i + 2, j as int), '\n'),
                        decreases e - j,
                    {
                        if s[j] == '\n' {
                            has_nl = true;
                        }
                        proof {
                            let a = s@.subrange(i + 2, j as int);
                            let b = s@.subrange(i + 2, j + 1);
                            assert(b =~= a.push(s@[j as int]));
                            if s@[j as int] == '\n' {
                                assert(b[b.len() - 1] == '\n');
                            } else if !lacks(a, '\n') {
                                let k = choose|k: int| 0 <= k < a.len() && a[k] == '\n';
                                assert(b[k] == '\n');
                            } else {
                                assert forall|k: int| 0 <= k < b.len() implies b[k] != '\n' by {
                                    if k < a.len() {
                                        assert(b[k] == a[k]);
                                    }
                                }
                            }
                        }
                        j = j + 1;
                    }
                    let (ta, tb) = trim_range(&s, i + 2, e);
                    if !has_nl && ta < tb {
                        out.push(string_of_range(&s, ta, tb));
                    }
                    proof {
                        let inner = s@.subrange(i + 2, e as int);
                        let item = if lacks(inner, '\n') && trim(inner).len() > 0 {
                            seq![trim(inner)]
                        } else {
                            Seq::empty()
                        };
                        assert(out@.map_values(|x: String| x@) =~= before + item);
                        assert(before + (item + wiki_from(s@, e + 2)) =~= (before + item)
                            + wiki_from(s@, e + 2));
                    }
                    i = e + 2;
                    continue ;
                },
                None => {},
            }
        }
        i = i + 1;
    }
    out
}

// ---------------------------------------------------------------------------
// Outgoing links, first-seen and deduplicated
// ---------------------------------------------------------------------------

/// `ts` keeping only the first target of each ASCII-case-insensitive name.
pub open spec fn first_by_key(ts: Seq<Seq<char>>) -> Seq<Seq<char>>
    decreases ts.len(),
{
    if ts.len() == 0 {
        Seq::empty()
    } else if exists|j: int|
        0 <= j < ts.len() - 1 && ascii_lower(#[trigger] ts[j]) == ascii_lower(ts.last()) {
        first_by_key(ts.drop_last())
    } else {
        first_by_key(ts.drop_last()).push(ts.last())
    }
}

proof fn lemma_first_by_key(ts: Seq<Seq<char>>)
    ensures
        forall|k: int|
            0 <= k < first_by_key(ts).len() ==> exists|j: int|
                0 <= j < ts.len() && #[trigger] first_by_key(ts)[k] == ts[j],
        forall|j: int|
            #![trigger ts[j]]
            0 <= j < ts.len() ==> exists|k: int|
                0 <= k < first_by_key(ts).len() && ascii_lower(#[trigger] first_by_key(ts)[k])
                    == ascii_lower(ts[j]),
    decreases ts.len(),
{
    if ts.len() > 0 {
        let p = ts.drop_last();
        lemma_first_by_key(p);
        let fp = first_by_key(p);
        let f = first_by_key(ts);
        assert forall|k: int| 0 <= k < f.len() implies exists|j: int|
            0 <= j < ts.len() && #[trigger] f[k] == ts[j] by {
            if k < fp.len() {
                assert(f[k] == fp[k]);
                let j = choose|j: int| 0 <= j < p.len() && fp[k] == p[j];
                assert(ts[j] == p[j]);
            } else {
                assert(f[k] == ts[ts.len() - 1]);
            }
        }
        assert forall|j: int| #![trigger ts[j]] 0 <= j < ts.len() implies exists|k: int|
            0 <= k < f.len() && ascii_lower(#[trigger] f[k]) == ascii_lower(ts[j]) by {
            if j < ts.len() - 1 {
                assert(ts[j] == p[j]);
                let k = choose|k: int|
                    0 <= k < fp.len() && ascii_lower(#[trigger] fp[k]) == ascii_lower(p[j]);
                assert(f[k] == fp[k]);
            } else {
                if exists|i: int|
                    0 <= i < ts.len() - 1 && ascii_lower(#[trigger] ts[i]) == ascii_lower(
                        ts.last(),
                    ) {
                    let i = choose|i: int|
                        0 <= i < ts.len() - 1 && ascii_lower(#[trigger] ts[i]) == ascii_lower(
                            ts.last(),
                        );
                    assert(ts[i] == p[i]);
                    let k = choose|k: int|
                        0 <= k < fp.len() && ascii_lower(#[trigger] fp[k]) == ascii_lower(p[i]);
                    assert(f[k] == fp[k]);
                } else {
                    assert(f[fp.len() as int] == ts.last());
                }
            }
        }
    }
}

/// One step of the first-by-name filter.
proof fn lemma_first_by_key_step(pre: Seq<Seq<char>>, x: Seq<char>, seen: bool)
    requires
        seen == exists|m: int|
            0 <= m < first_by_key(pre).len() && ascii_lower(#[trigger] first_by_key(pre)[m])
                == ascii_lower(x),
    ensures
        first_by_key(pre.push(x)) == (if seen {
            first_by_key(pre)
        } else {
            first_by_key(pre).push(x)
        }),
{
    let cur = pre.push(x);
    let f = first_by_key(pre);
    lemma_first_by_key(pre);
    assert(cur.drop_last() =~= pre);
    assert(cur.last() == x);
    if seen {
        let m = choose|m: int| 0 <= m < f.len() && ascii_lower(#[trigger] f[m]) == ascii_lower(x);
        let j = choose|j: int| 0 <= j < pre.len() && f[m] == pre[j];
        assert(cur[j] == pre[j]);
        assert(ascii_lower(cur[j]) == ascii_lower(cur.last()));
    } else {
        assert forall|j: int| 0 <= j < cur.len() - 1 implies ascii_lower(#[trigger] cur[j])
            != ascii_lower(cur.last()) by {
            assert(cur[j] == pre[j]);
            let m = choose|m: int|
                0 <= m < f.len() && ascii_lower(#[trigger] f[m]) == ascii_lower(pre[j]);
        }
    }
}

/// `[[targets]]` referenced by a body, in first-seen order, one per
/// ASCII-case-insensitive name.
pub fn link_targets(body: &str) -> (r: Vec<String>)
    ensures
        r@.map_values(|x: String| x@) == first_by_key(wiki_from(body@, 0)),
{
    let all = wiki_targets(body);
    let ghost ts = wiki_from(body@, 0);
    let mut out: Vec<String> = Vec::new();
    let mut keys: Vec<Vec<char>> = Vec::new();
    let mut i: usize = 0;
    while i < all.len()
        invariant
            i <= all.len(),
            all@.map_values(|x: String| x@) == ts,
            out@.map_values(|x: String| x@) == first_by_key(ts.take(i as int)),
            keys.len() == out.len(),
            forall|k: int| 0 <= k < keys.len() ==> #[trigger] keys[k]@ == ascii_lower(out[k]@),
        decreases all.len() - i,
    {
        let ghost pre = ts.take(i as int);
        let ghost f = first_by_key(pre);
        let key = ascii_lower_vec(&chars_of(all[i].as_str()));
        let mut seen = false;
        let mut k: usize = 0;
        while k < keys.len()
            invariant
                k <= keys.len(),
                seen == exists|m: int| 0 <= m < k && #[trigger] keys[m]@ == key@,
            decreases keys.len() - k,
        {
            if vec_eq(&keys[k], &key) {
                seen = true;
            }
            k = k + 1;
        }
        proof {
            assert(ts.take(i + 1) =~= pre.push(all[i as int]@));
            assert(out@.map_values(|x: String| x@) == f);
            let x = all[i as int]@;
            assert(key@ == ascii_lower(x));
            assert(f.len() == out.len());
            if seen {
                let m = choose|m: int| 0 <= m < k && #[trigger] keys[m]@ == key@;
                assert(f[m] == out[m]@);
                assert(ascii_lower(f[m]) == ascii_lower(x));
            } else {
                assert forall|m: int| 0 <= m < f.len() implies ascii_lower(#[trigger] f[m])
                    != ascii_lower(x) by {
                    assert(f[m] == out[m]@);
                    if ascii_lower(f[m]) == ascii_lower(x) {
                        assert(keys[m]@ == key@);
                    }
                }
            }
            lemma_first_by_key_step(pre, all[i as int]@, seen);
        }
        if !seen {
            let t = all[i].clone();
            out.push(t);
            keys.push(key);
            proof {
                assert(out@.map_values(|x: String| x@) =~= f.push(all[i as int]@));
            }
        }
        i = i + 1;
    }
    assert(ts.take(all.len() as int) =~= ts);
    out
}

// ---------------------------------------------------------------------------
// Backlinks
// ---------------------------------------------------------------------------

/// Notes, among `ns`, that link to `title` (trimmed; ASCII-case-insensitive),
/// other than the selected note. Nothing when the title is blank.
pub open spec fn backlinks_of(ns: Seq<NoteView>, title: Seq<char>, selected: Option<Seq<char>>) -> Seq<
    NoteView,
>
    decreases ns.len(),
{
    if ns.len() == 0 || trim(title).len() == 0 {
        Seq::empty()
    } else {
        let n = ns.last();
        let rest = backlinks_of(ns.drop_last(), title, selected);
        if selected != Some(n.id) && links_to(n.body, trim(title)) {
            rest.push(n)
        } else {
            rest
        }
    }
}

/// A note is listed among the backlinks of `title` exactly when it is one of
/// the notes, the title is not blank, it is not the selected note, and its
/// ASCII-lowercased body holds the whole link `[[title]]` (the title trimmed
/// and ASCII-lowercased, the closing brackets included). No more notes are
/// listed than given.
pub proof fn lemma_backlinks_member(ns: Seq<NoteView>, title: Seq<char>, selected: Option<Seq<char>>)
    ensures
        backlinks_of(ns, title, selected).len() <= ns.len(),
        forall|n: NoteView|
            #[trigger] backlinks_of(ns, title, selected).contains(n) <==> (ns.contains(n) && trim(
                title,
            ).len() > 0 && selected != Some(n.id) && contains_seq(
                ascii_lower(n.body),
                seq!['[', '['] + ascii_lower(trim(title)) + seq![']', ']'],
            )),
    decreases ns.len(),
{
    let needle = seq!['[', '['] + ascii_lower(trim(title)) + seq![']', ']'];
    assert(link_needle(trim(title)) =~= needle);
    if ns.len() > 0 && trim(title).len() > 0 {
        let p = ns.drop_last();
        let l = ns.last();
        lemma_backlinks_member(p, title, selected);
        let r = backlinks_of(ns, title, selected);
        let rp = backlinks_of(p, title, selected);
        assert forall|n: NoteView| #[trigger] r.contains(n) <==> (ns.contains(n) && trim(
            title,
        ).len() > 0 && selected != Some(n.id) && contains_seq(ascii_lower(n.body), needle)) by {
            if r.contains(n) {
                let k = choose|k: int| 0 <= k < r.len() && r[k] == n;
                if k < rp.len() {
                    assert(rp[k] == n);
                    assert(rp.contains(n));
                    let m = choose|m: int| 0 <= m < p.len() && p[m] == n;
                    assert(ns[m] == n);
                } else {
                    assert(n == l);
                    assert(ns[ns.len() - 1] == n);
                }
            }
            if ns.contains(n) && selected != Some(n.id) && contains_seq(ascii_lower(n.body), needle) {
                let m = choose|m: int| 0 <= m < ns.len() && ns[m] == n;
                if m < ns.len() - 1 {
                    assert(p[m] == n);
                    assert(rp.contains(n));
                    let k = choose|k: int| 0 <= k < rp.len() && rp[k] == n;
                    assert(r[k] == n);
                } else {
                    assert(r[r.len() - 1] == n);
                }
            }
        }
    }
}

pub open spec fn notes_view(ns: Seq<Note>) -> Seq<NoteView> {
    ns.map_values(|n: Note| n@)
}

pub open spec fn opt_view(o: Option<String>) -> Option<Seq<char>> {
    match o {
        Some(s) => Some(s@),
        None => None,
    }
}

/// Notes that link to the current one (`title`, the note `selected`), in
/// the order given: `[[title]]` matched case-insensitively.
pub fn backlinks(notes: &Vec<Note>, title: &str, selected: &Option<String>) -> (r: Vec<Note>)
    ensures
        notes_view(r@) == backlinks_of(notes_view(notes@), title@, opt_view(*selected)),
{
    let t = trim_str(title);
    let mut out: Vec<Note> = Vec::new();
    if t.as_str().is_empty() {
        proof {
            if notes@.len() > 0 {
                assert(backlinks_of(notes_view(notes@), title@, opt_view(*selected)) =~= Seq::<
                    NoteView,
                >::empty());
            }
            assert(notes_view(out@) =~= Seq::<NoteView>::empty());
        }
        return out;
    }
    let needle = link_vec(&ascii_lower_vec(&chars_of(t.as_str())));
    let sel: Option<Vec<char>> = match selected {
        Some(s) => Some(chars_of(s.as_str())),
        None => None,
    };
    let ghost all = notes_view(notes@);
    let mut i: usize = 0;
    while i < notes.len()
        invariant
            i <= notes.len(),
            t@ == trim(title@),
            t@.len() > 0,
            needle@ == link_needle(t@),
            all == notes_view(notes@),
            match sel {
                Some(v) => *selected matches Some(s) && v@ == s@,
                None => selected is None,
            },
            notes_view(out@) == backlinks_of(all.take(i as int), title@, opt_view(*selected)),
        decreases notes.len() - i,
    {
        let n = &notes[i];
        let id = chars_of(n.id.as_str());
        let is_sel = match &sel {
            Some(v) => vec_eq(v, &id),
            None => false,
        };
        let lower = ascii_lower_vec(&chars_of(n.body.as_str()));
        let hit = !is_sel && contains_exec(&lower, &needle);
        proof {
            let cur = all.take(i + 1);
            assert(cur.drop_last() =~= all.take(i as int));
            assert(cur.last() == n@);
        }
        if hit {
            out.push(n.clone());
            proof {
                assert(notes_view(out@) =~= backlinks_of(all.take(i as int), title@, opt_view(*selected)).push(n@));
            }
        }
        i = i + 1;
    }
    assert(all.take(notes.len() as int) =~= all);
    out
}

// ---------------------------------------------------------------------------
// Saving and renaming
// ---------------------------------------------------------------------------

/// A save renames the note's inbound links when it had a non-empty title
/// before and the new title differs from it beyond ASCII case.
pub open spec fn renames(old_title: Seq<char>, new_title: Seq<char>) -> bool {
    old_title.len() > 0 && ascii_lower(old_title) != ascii_lower(new_title)
}

pub fn title_renamed(old_title: &str, new_title: &str) -> (r: bool)
    ensures
        r == renames(old_title@, new_title@),
{
    let a = ascii_lower_vec(&chars_of(old_title));
    let b = ascii_lower_vec(&chars_of(new_title));
    !old_title.is_empty() && !vec_eq(&a, &b)
}

/// The note as a save stores it: created when first saved (kept from the
/// stored copy, if any), updated now.
pub open spec fn saved_view(n: NoteView, prior_created: Option<int>, ts: int) -> NoteView {
    NoteView {
        created_at: match prior_created {
            Some(c) => c,
            None => ts,
        },
        updated_at: ts,
        ..n
    }
}

/// The note a save at `ts` writes, given the stored copy's creation time.
pub fn saved_note(note: &Note, prior_created: Option<i64>, ts: i64) -> (r: Note)
    ensures
        r@ == saved_view(
            note@,
            match prior_created {
                Some(c) => Some(c as int),
                None => None,
            },
            ts as int,
        ),
{
    let mut r = note.clone();
    r.created_at = match prior_created {
        Some(c) => c,
        None => ts,
    };
    r.updated_at = ts;
    r
}

/// The other note `n` after `old` was renamed to `new` at `ts`: its links
/// repointed and its `updated_at` bumped, or `None` when it had none.
pub fn relink_note(n: &Note, old: &str, new: &str, ts: i64) -> (r: Option<Note>)
    ensures
        match replace_link_spec(n.body@, old@, new@) {
            Some(b) => r matches Some(m) && m@ == NoteView { body: b, updated_at: ts as int, ..n@ },
            None => r is None,
        },
{
    match replace_link(n.body.as_str(), old, new) {
        None => None,
        Some(b) => {
            let mut m = n.clone();
            m.body = b;
            m.updated_at = ts;
            Some(m)
        },
    }
}

} // verus!
