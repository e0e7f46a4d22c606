//! Search: the FTS5 prefix query built from the search box, and the
//! jump-to-note palette filter.

use vstd::prelude::*;
use crate::note::{Note, NoteView};
use crate::text::{
    is_alphanumeric_char, unicode_lowercase, alphanumeric, to_lowercase, chars_of, string_of,
    string_of_range, push_all, contains_seq, contains_exec,
};

verus! {

/// End of the run of alphanumeric characters starting at `j`.
pub open spec fn run_end(s: Seq<char>, j: int) -> int
    decreases s.len() - j,
{
    if 0 <= j < s.len() && is_alphanumeric_char(s[j]) {
        run_end(s, j + 1)
    } else {
        j
    }
}

pub proof fn lemma_run_end(s: Seq<char>, j: int)
    requires
        0 <= j <= s.len(),
    ensures
        j <= run_end(s, j) <= s.len(),
    decreases s.len() - j,
{
    if j < s.len() && is_alphanumeric_char(s[j]) {
        lemma_run_end(s, j + 1);
    }
}

/// The maximal alphanumeric runs of `s` from `i` on: `split` at every
/// non-alphanumeric character with the empty pieces dropped.
pub open spec fn terms_from(s: Seq<char>, i: int) -> Seq<Seq<char>>
    decreases s.len() - i,
{
    if i < 0 || i >= s.len() {
        Seq::empty()
    } else if is_alphanumeric_char(s[i]) {
        let e = run_end(s, i);
        proof {
            lemma_run_end(s, i + 1);
        }
        seq![s.subrange(i, e)] + terms_from(s, e)
    } else {
        terms_from(s, i + 1)
    }
}

/// One FTS5 prefix term: `"term"*`, lowercased.
pub open spec fn fts_term(t: Seq<char>) -> Seq<char> {
    seq!['"'] + unicode_lowercase(t) + seq!['"', '*']
}

/// FTS5 terms joined by spaces (implicit AND).
pub open spec fn join_terms(ts: Seq<Seq<char>>) -> Seq<char>
    decreases ts.len(),
{
    if ts.len() == 0 {
        Seq::empty()
    } else if ts.len() == 1 {
        fts_term(ts[0])
    } else {
        join_terms(ts.drop_last()) + seq![' '] + fts_term(ts.last())
    }
}

/// The FTS5 query for a search box: `None` when nothing is searchable.
pub open spec fn fts_spec(filter: Seq<char>) -> Option<Seq<char>> {
    let ts = terms_from(filter, 0);
    if ts.len() == 0 {
        None
    } else {
        Some(join_terms(ts))
    }
}

/// Turn a raw search box string into an FTS5 prefix query, e.g.
/// `meet not` -> `"meet"* "not"*` (implicit AND, each term a prefix match).
/// Returns `None` when there is nothing searchable, so the caller can fall
/// back to listing everything instead of feeding FTS an empty/invalid MATCH.
pub fn fts_query(filter: &str) -> (r: Option<String>)
    ensures
        match fts_spec(filter@) {
            Some(q) => r matches Some(s) && s@ == q,
            None => r is None,
        },
{
    let s = chars_of(filter);
    let mut out: Vec<char> = Vec::new();
    let mut n: usize = 0;
    let ghost mut done: Seq<Seq<char>> = Seq::empty();
    let mut i: usize = 0;
    while i < s.len()
        invariant
            i <= s.len(),
            n == done.len(),
            n <= i,
            out@ == join_terms(done),
            done + terms_from(s@, i as int) == terms_from(s@, 0),
        decreases s.len() - i,
    {
        if alphanumeric(s[i]) {
            let mut e = i + 1;
            proof {
                lemma_run_end(s@, i + 1);
            }
            while e < s.len() && alphanumeric(s[e])
                invariant
                    i < e <= s.len(),
                    run_end(s@, i as int) == run_end(s@, e as int),
                decreases s.len() - e,
            {
                e = e + 1;
            }
            let t = to_lowercase(string_of_range(&s, i, e).as_str());
            if n > 0 {
                out.push(' ');
            }
            out.push('"');
            push_all(&mut out, &chars_of(t.as_str()));
            out.push('"');
            out.push('*');
            proof {
                let term = s@.subrange(i as int, e as int);
                let nd = done.push(term);
                assert(nd.drop_last() =~= done);
                if n == 0 {
                    assert(out@ =~= fts_term(term));
                } else {
                    assert(out@ =~= join_terms(done) + seq![' '] + fts_term(term));
                }
                assert(done + (seq![term] + terms_from(s@, e as int)) =~= nd + terms_from(
                    s@,
                    e as int,
                ));
                done = nd;
            }
            n = n + 1;
            i = e;
        } else {
            i = i + 1;
        }
    }
    assert(done + Seq::<Seq<char>>::empty() =~= done);
    if n == 0 {
        None
    } else {
        Some(string_of(&out))
    }
}

// ---------------------------------------------------------------------------
// Jump-to-note palette
// ---------------------------------------------------------------------------

/// A note matches a lowercased palette query: the query is empty, or found
/// in its lowercased title, folder or tags.
pub open spec fn palette_hit(n: NoteView, q: Seq<char>) -> bool {
    q.len() == 0 || contains_seq(unicode_lowercase(n.title), q) || contains_seq(
        unicode_lowercase(n.folder),
        q,
    ) || contains_seq(unicode_lowercase(n.tags), q)
}

/// All notes matching the lowercased query, in order.
pub open spec fn palette_all(ns: Seq<NoteView>, q: Seq<char>) -> Seq<NoteView>
    decreases ns.len(),
{
    if ns.len() == 0 {
        Seq::empty()
    } else {
        let rest = palette_all(ns.drop_last(), q);
        if palette_hit(ns.last(), q) {
            rest.push(ns.last())
        } else {
            rest
        }
    }
}

/// The palette shows at most this many notes.
pub const PALETTE_LIMIT: usize = 50;

pub open spec fn notes_view(ns: Seq<Note>) -> Seq<NoteView> {
    ns.map_values(|n: Note| n@)
}

/// The matches of a longer run of notes extend those of a shorter one.
proof fn lemma_palette_prefix(ns: Seq<NoteView>, q: Seq<char>, i: int, j: int)
    requires
        0 <= i <= j <= ns.len(),
    ensures
        palette_all(ns.take(i), q).len() <= palette_all(ns.take(j), q).len(),
        palette_all(ns.take(i), q) == palette_all(ns.take(j), q).take(
            palette_all(ns.take(i), q).len() as int,
        ),
    decreases j - i,
{
    if i == j {
        assert(palette_all(ns.take(j), q).take(palette_all(ns.take(j), q).len() as int)
            =~= palette_all(ns.take(j), q));
    } else {
        lemma_palette_prefix(ns, q, i, j - 1);
        let a = palette_all(ns.take(i), q);
        let b = palette_all(ns.take(j - 1), q);
        let c = palette_all(ns.take(j), q);
        assert(ns.take(j).drop_last() =~= ns.take(j - 1));
        assert(c.take(a.len() as int) =~= b.take(a.len() as int));
    }
}

/// The jump-to-note palette: notes whose title, folder or tags contain the
/// query (all notes for an empty query), compared lowercased, at most
/// `PALETTE_LIMIT`, in the order given.
pub fn palette_matches(notes: &Vec<Note>, query: &str) -> (r: Vec<Note>)
    ensures
        ({
            let all = palette_all(notes_view(notes@), unicode_lowercase(query@));
            notes_view(r@) == all.take(if all.len() < PALETTE_LIMIT {
                all.len() as int
            } else {
                PALETTE_LIMIT as int
            })
        }),
{
    let q = chars_of(to_lowercase(query).as_str());
    let ghost ns = notes_view(notes@);
    let mut out: Vec<Note> = Vec::new();
    let mut i: usize = 0;
    while i < notes.len() && out.len() < PALETTE_LIMIT
        invariant
            i <= notes.len(),
            ns == notes_view(notes@),
            q@ == unicode_lowercase(query@),
            notes_view(out@) == palette_all(ns.take(i as int), q@),
            out.len() <= PALETTE_LIMIT,
        decreases notes.len() - i,
    {
        let n = &notes[i];
        let hit = q.len() == 0 || contains_exec(&chars_of(to_lowercase(n.title.as_str()).as_str()), &q)
            || contains_exec(&chars_of(to_lowercase(n.folder.as_str()).as_str()), &q)
            || contains_exec(&chars_of(to_lowercase(n.tags.as_str()).as_str()), &q);
        proof {
            assert(ns.take(i + 1).drop_last() =~= ns.take(i as int));
            assert(ns.take(i + 1).last() == n@);
        }
        if hit {
            out.push(n.clone());
            proof {
                assert(notes_view(out@) =~= palette_all(ns.take(i as int), q@).push(n@));
            }
        }
        i = i + 1;
    }
    proof {
        let all = palette_all(ns, q@);
        assert(ns.take(notes.len() as int) =~= ns);
        lemma_palette_prefix(ns, q@, i as int, notes.len() as int);
        if out.len() < PALETTE_LIMIT {
            assert(i == notes.len());
            assert(notes_view(out@) =~= all.take(all.len() as int));
        }
    }
    out
}

proof fn lemma_terms_empty(s: Seq<char>, i: int)
    requires
        0 <= i <= s.len(),
    ensures
        terms_from(s, i).len() == 0 <==> forall|j: int|
            i <= j < s.len() ==> !is_alphanumeric_char(#[trigger] s[j]),
    decreases s.len() - i,
{
    if i < s.len() {
        if is_alphanumeric_char(s[i]) {
            lemma_run_end(s, i + 1);
        } else {
            lemma_terms_empty(s, i + 1);
        }
    }
}

/// The search box yields no query exactly when it holds nothing searchable:
/// no alphanumeric character at all.
pub proof fn lemma_fts_none_iff_nothing_searchable(filter: Seq<char>)
    ensures
        fts_spec(filter) is None <==> forall|j: int|
            0 <= j < filter.len() ==> !is_alphanumeric_char(#[trigger] filter[j]),
{
    lemma_terms_empty(filter, 0);
}

/// Runs and terms past a prefix are those of the rest.
proof fn lemma_terms_shift(p: Seq<char>, b: Seq<char>, j: int)
    requires
        0 <= j <= b.len(),
    ensures
        run_end(p + b, p.len() + j) == p.len() + run_end(b, j),
        terms_from(p + b, p.len() + j) == terms_from(b, j),
    decreases b.len() - j,
{
    let s = p + b;
    if j < b.len() {
        assert(s[p.len() + j] == b[j]);
        lemma_terms_shift(p, b, j + 1);
        if is_alphanumeric_char(b[j]) {
            let e = run_end(b, j);
            lemma_run_end(b, j + 1);
            assert(e == run_end(b, j + 1));
            lemma_terms_shift(p, b, e);
            assert(s.subrange(p.len() + j, p.len() + e) =~= b.subrange(j, e));
        }
    }
}

/// Before a non-alphanumeric separator, runs end where they end in `a`.
proof fn lemma_run_end_before(a: Seq<char>, c: char, b: Seq<char>, j: int)
    requires
        0 <= j <= a.len(),
        !is_alphanumeric_char(c),
    ensures
        run_end(a + seq![c] + b, j) == run_end(a, j),
    decreases a.len() - j,
{
    let s = a + seq![c] + b;
    if j < a.len() {
        assert(s[j] == a[j]);
        lemma_run_end_before(a, c, b, j + 1);
    } else {
        assert(s[j] == c);
    }
}

/// The terms of `a`, a separator, then `b`, from position `i` in `a`.
proof fn lemma_terms_split(a: Seq<char>, c: char, b: Seq<char>, i: int)
    requires
        0 <= i <= a.len(),
        !is_alphanumeric_char(c),
    ensures
        terms_from(a + seq![c] + b, i) == terms_from(a, i) + terms_from(b, 0),
    decreases a.len() - i,
{
    let s = a + seq![c] + b;
    if i == a.len() {
        assert(s[i] == c);
        assert(s =~= (a + seq![c]) + b);
        lemma_terms_shift(a + seq![c], b, 0);
        assert(terms_from(a, i) =~= Seq::<Seq<char>>::empty());
        assert(terms_from(a, i) + terms_from(b, 0) =~= terms_from(b, 0));
    } else {
        assert(s[i] == a[i]);
        if is_alphanumeric_char(a[i]) {
            lemma_run_end_before(a, c, b, i);
            let e = run_end(a, i);
            lemma_run_end(a, i + 1);
            lemma_terms_split(a, c, b, e);
            assert(s.subrange(i, e) =~= a.subrange(i, e));
            assert(seq![a.subrange(i, e)] + (terms_from(a, e) + terms_from(b, 0)) =~= (seq![
                a.subrange(i, e),
            ] + terms_from(a, e)) + terms_from(b, 0));
        } else {
            lemma_terms_split(a, c, b, i + 1);
        }
    }
}

/// Joining two non-empty term lists puts one space between their queries.
proof fn lemma_join_terms_concat(x: Seq<Seq<char>>, y: Seq<Seq<char>>)
    requires
        x.len() > 0,
        y.len() > 0,
    ensures
        join_terms(x + y) == join_terms(x) + seq![' '] + join_terms(y),
    decreases y.len(),
{
    let xy = x + y;
    if y.len() == 1 {
        assert(xy.drop_last() =~= x);
        assert(xy.last() == y[0]);
    } else {
        lemma_join_terms_concat(x, y.drop_last());
        assert(xy.drop_last() =~= x + y.drop_last());
        assert(xy.last() == y.last());
    }
}

/// A search box made of `a`, a non-alphanumeric character, then `b` gives
/// the query of `a` and the query of `b`, joined by one space: every term
/// of either side is kept, in order (or just the one side's query when the
/// other has no term).
pub proof fn lemma_fts_concat(a: Seq<char>, c: char, b: Seq<char>)
    requires
        !is_alphanumeric_char(c),
    ensures
        fts_spec(a + seq![c] + b) == (match (fts_spec(a), fts_spec(b)) {
            (Some(x), Some(y)) => Some(x + seq![' '] + y),
            (Some(x), None) => Some(x),
            (None, y) => y,
        }),
{
    lemma_terms_split(a, c, b, 0);
    let ta = terms_from(a, 0);
    let tb = terms_from(b, 0);
    if ta.len() > 0 && tb.len() > 0 {
        lemma_join_terms_concat(ta, tb);
    } else if ta.len() > 0 {
        assert(ta + tb =~= ta);
    } else {
        assert(ta + tb =~= tb);
    }
}

/// A search box that is one run of alphanumeric characters gives the one
/// prefix term `"run"*`, lowercased.
pub proof fn lemma_fts_single_run(r: Seq<char>)
    requires
        r.len() > 0,
        forall|k: int| 0 <= k < r.len() ==> is_alphanumeric_char(#[trigger] r[k]),
    ensures
        fts_spec(r) == Some(seq!['"'] + unicode_lowercase(r) + seq!['"', '*']),
{
    assert(run_end(r, 0) == r.len()) by {
        lemma_run_end_all(r, 0);
    }
    assert(r.subrange(0, r.len() as int) =~= r);
    assert(terms_from(r, r.len() as int) =~= Seq::<Seq<char>>::empty());
    assert(terms_from(r, 0) =~= seq![r]);
}

proof fn lemma_run_end_all(r: Seq<char>, j: int)
    requires
        0 <= j <= r.len(),
        forall|k: int| 0 <= k < r.len() ==> is_alphanumeric_char(#[trigger] r[k]),
    ensures
        run_end(r, j) == r.len(),
    decreases r.len() - j,
{
    if j < r.len() {
        lemma_run_end_all(r, j + 1);
    }
}

/// A note is among the palette matches of a lowercased query exactly when it
/// is one of the notes and the query is empty or occurs anywhere (not only
/// at the start) in its lowercased title, folder or tags.
pub proof fn lemma_palette_member(ns: Seq<NoteView>, q: Seq<char>)
    ensures
        palette_all(ns, q).len() <= ns.len(),
        forall|n: NoteView|
            #[trigger] palette_all(ns, q).contains(n) <==> (ns.contains(n) && (q.len() == 0
                || contains_seq(unicode_lowercase(n.title), q) || contains_seq(
                unicode_lowercase(n.folder),
                q,
            ) || contains_seq(unicode_lowercase(n.tags), q))),
    decreases ns.len(),
{
    if ns.len() > 0 {
        let p = ns.drop_last();
        let l = ns.last();
        lemma_palette_member(p, q);
        let r = palette_all(ns, q);
        let rp = palette_all(p, q);
        assert forall|n: NoteView| #[trigger] r.contains(n) <==> (ns.contains(n) && palette_hit(
            n,
            q,
        )) by {
            if r.contains(n) {
                let k = choose|k: int| 0 <= k < r.len() && r[k] == n;
                if k < rp.len() {
                    assert(rp[k] == n);
                    assert(rp.contains(n));
                    let m = choose|m: int| 0 <= m < p.len() && p[m] == n;
                    assert(ns[m] == n);
                } else {
                    assert(n == l);
                    assert(ns[ns.len() - 1] == n);
                }
            }
            if ns.contains(n) && palette_hit(n, q) {
                let m = choose|m: int| 0 <= m < ns.len() && ns[m] == n;
                if m < ns.len() - 1 {
                    assert(p[m] == n);
                    assert(rp.contains(n));
                    let k = choose|k: int| 0 <= k < rp.len() && rp[k] == n;
                    assert(r[k] == n);
                } else {
                    assert(r[r.len() - 1] == n);
                }
            }
        }
    }
}

/// A note whose lowercased title, folder or tags hold the query anywhere is
/// shown by the palette when fewer than `PALETTE_LIMIT` matching notes come
/// before it.
pub proof fn lemma_palette_shows(ns: Seq<NoteView>, q: Seq<char>, i: int)
    requires
        0 <= i < ns.len(),
        contains_seq(unicode_lowercase(ns[i].title), q) || contains_seq(
            unicode_lowercase(ns[i].folder),
            q,
        ) || contains_seq(unicode_lowercase(ns[i].tags), q),
        palette_all(ns.take(i), q).len() < PALETTE_LIMIT,
    ensures
        ({
            let all = palette_all(ns, q);
            all.take(
                if all.len() < PALETTE_LIMIT {
                    all.len() as int
                } else {
                    PALETTE_LIMIT as int
                },
            ).contains(ns[i])
        }),
{
    let n = ns[i];
    assert(palette_hit(n, q));
    let a = palette_all(ns.take(i), q);
    let b = palette_all(ns.take(i + 1), q);
    assert(ns.take(i + 1).drop_last() =~= ns.take(i));
    assert(ns.take(i + 1).last() == n);
    assert(b == a.push(n));
    lemma_palette_prefix(ns, q, i + 1, ns.len() as int);
    assert(ns.take(ns.len() as int) =~= ns);
    let all = palette_all(ns, q);
    assert(all.take(b.len() as int) == b);
    assert(b[a.len() as int] == n);
    assert(all.take(b.len() as int)[a.len() as int] == all[a.len() as int]);
    assert(all[a.len() as int] == n);
    let lim: int = if all.len() < PALETTE_LIMIT {
        all.len() as int
    } else {
        PALETTE_LIMIT as int
    };
    assert(all.take(lim)[a.len() as int] == n);
}

} // verus!
