//! The note tree: notes grouped by folder, folders in order, root first.

use vstd::prelude::*;
use crate::note::{Note, NoteView};
use crate::text::{lex_lt, lex_less, lemma_lex_trans, lemma_lex_total, chars_of, vec_eq};

verus! {

/// One folder of the tree and its notes.
pub struct FolderGroup {
    pub folder: String,
    pub notes: Vec<Note>,
}

/// The notes of `ns` in folder `f`, in order.
pub open spec fn in_folder(ns: Seq<NoteView>, f: Seq<char>) -> Seq<NoteView>
    decreases ns.len(),
{
    if ns.len() == 0 {
        Seq::empty()
    } else {
        let r = in_folder(ns.drop_last(), f);
        if ns.last().folder == f {
            r.push(ns.last())
        } else {
            r
        }
    }
}

/// Some note of `ns` lies in folder `f`.
pub open spec fn has_folder(ns: Seq<NoteView>, f: Seq<char>) -> bool {
    exists|i: int| 0 <= i < ns.len() && #[trigger] ns[i].folder == f
}

pub open spec fn notes_view(ns: Seq<Note>) -> Seq<NoteView> {
    ns.map_values(|n: Note| n@)
}

/// The folders of the groups, in order.
pub open spec fn group_keys(gs: Seq<FolderGroup>) -> Seq<Seq<char>> {
    gs.map_values(|g: FolderGroup| g.folder@)
}

pub open spec fn keys_sorted(ks: Seq<Seq<char>>) -> bool {
    forall|i: int, j: int| 0 <= i < j < ks.len() ==> lex_lt(#[trigger] ks[i], #[trigger] ks[j])
}

proof fn lemma_no_folder_empty(ns: Seq<NoteView>, f: Seq<char>)
    requires
        !has_folder(ns, f),
    ensures
        in_folder(ns, f) == Seq::<NoteView>::empty(),
    decreases ns.len(),
{
    if ns.len() > 0 {
        let p = ns.drop_last();
        assert forall|i: int| 0 <= i < p.len() implies #[trigger] p[i].folder != f by {
            assert(p[i] == ns[i]);
        }
        lemma_no_folder_empty(p, f);
        assert(ns[ns.len() - 1].folder != f);
    }
}

proof fn lemma_insert_keeps_sorted(v: Seq<Seq<char>>, p: int, x: Seq<char>)
    requires
        keys_sorted(v),
        0 <= p <= v.len(),
        forall|j: int| 0 <= j < p ==> lex_lt(#[trigger] v[j], x),
        p < v.len() ==> lex_lt(x, v[p]),
    ensures
        keys_sorted(v.insert(p, x)),
{
    let w = v.insert(p, x);
    assert forall|i: int, j: int| 0 <= i < j < w.len() implies lex_lt(
        #[trigger] w[i],
        #[trigger] w[j],
    ) by {
        if j < p {
            assert(w[i] == v[i] && w[j] == v[j]);
        } else if j == p {
            assert(w[i] == v[i]);
        } else if i < p {
            assert(w[i] == v[i] && w[j] == v[j - 1]);
            if j - 1 > p {
                lemma_lex_trans(x, v[p], v[j - 1]);
            }
            lemma_lex_trans(v[i], x, v[j - 1]);
        } else if i == p {
            assert(w[j] == v[j - 1]);
            if j - 1 > p {
                lemma_lex_trans(x, v[p], v[j - 1]);
            }
        } else {
            assert(w[i] == v[i - 1] && w[j] == v[j - 1]);
        }
    }
}

/// The tree panel's grouping: one group per folder, folders in order (the
/// root folder `""` sorts first), each holding its notes in the order given.
pub fn group_by_folder(notes: &Vec<Note>) -> (r: Vec<FolderGroup>)
    ensures
        keys_sorted(group_keys(r@)),
        forall|k: int|
            0 <= k < r.len() ==> notes_view(#[trigger] r[k].notes@) == in_folder(
                notes_view(notes@),
                r[k].folder@,
            ),
        forall|f: Seq<char>|
            #[trigger] group_keys(r@).contains(f) <==> has_folder(notes_view(notes@), f),
{
    let ghost ns = notes_view(notes@);
    let mut groups: Vec<FolderGroup> = Vec::new();
    let mut i: usize = 0;
    while i < notes.len()
        invariant
            i <= notes.len(),
            ns == notes_view(notes@),
            keys_sorted(group_keys(groups@)),
            forall|k: int|
                0 <= k < groups.len() ==> notes_view(#[trigger] groups[k].notes@) == in_folder(
                    ns.take(i as int),
                    groups[k].folder@,
                ),
            forall|f: Seq<char>|
                #[trigger] group_keys(groups@).contains(f) <==> has_folder(ns.take(i as int), f),
        decreases notes.len() - i,
    {
        let n = &notes[i];
        let f = chars_of(n.folder.as_str());
        let ghost pre = ns.take(i as int);
        let ghost cur = ns.take(i + 1);
        let ghost keys = group_keys(groups@);
        proof {
            assert(cur.drop_last() =~= pre);
            assert(cur.last() == n@);
        }
        let mut p: usize = 0;
        while p < groups.len() && lex_less(&chars_of(groups[p].folder.as_str()), &f)
            invariant
                p <= groups.len(),
                f@ == n.folder@,
                keys == group_keys(groups@),
                forall|j: int| 0 <= j < p ==> lex_lt(#[trigger] keys[j], f@),
            decreases groups.len() - p,
        {
            proof {
                assert(keys[p as int] == groups[p as int].folder@);
            }
            p = p + 1;
        }
        if p < groups.len() && vec_eq(&chars_of(groups[p].folder.as_str()), &f) {
            let ghost old_groups = groups@;
            let mut g = groups.remove(p);
            g.notes.push(n.clone());
            groups.insert(p, g);
            proof {
                assert(group_keys(groups@) =~= keys);
                assert forall|k: int| 0 <= k < groups.len() implies notes_view(
                    #[trigger] groups[k].notes@,
                ) == in_folder(cur, groups[k].folder@) by {
                    if k == p {
                        assert(notes_view(groups[k].notes@) =~= notes_view(
                            old_groups[k].notes@,
                        ).push(n@));
                    } else {
                        assert(groups[k] == old_groups[k]);
                        assert(keys[k] != keys[p as int]) by {
                            lemma_lex_irrefl_keys(keys, k, p as int);
                        }
                    }
                }
                assert forall|x: Seq<char>| #[trigger] group_keys(groups@).contains(x)
                    <==> has_folder(cur, x) by {
                    lemma_has_folder_push(pre, n@, x);
                    if x == n.folder@ {
                        assert(keys[p as int] == x);
                    }
                }
            }
        } else {
            proof {
                if p < groups.len() {
                    lemma_lex_total(keys[p as int], f@);
                    assert(keys[p as int] == groups[p as int].folder@);
                }
                if keys.contains(f@) {
                    let k = choose|k: int| 0 <= k < keys.len() && keys[k] == f@;
                    if k < p {
                        crate::text::lemma_lex_irrefl(f@);
                    } else if k > p {
                        lemma_lex_trans(f@, keys[p as int], keys[k]);
                        crate::text::lemma_lex_irrefl(f@);
                    }
                }
                assert(!has_folder(pre, f@));
                lemma_no_folder_empty(pre, f@);
                lemma_insert_keeps_sorted(keys, p as int, f@);
            }
            let ghost old_groups = groups@;
            let mut v: Vec<Note> = Vec::new();
            v.push(n.clone());
            let g = FolderGroup { folder: n.folder.clone(), notes: v };
            groups.insert(p, g);
            proof {
                assert(group_keys(groups@) =~= keys.insert(p as int, f@));
                assert forall|k: int| 0 <= k < groups.len() implies notes_view(
                    #[trigger] groups[k].notes@,
                ) == in_folder(cur, groups[k].folder@) by {
                    if k == p {
                        assert(notes_view(groups[k].notes@) =~= Seq::<NoteView>::empty().push(
                            n@,
                        ));
                    } else {
                        let ok = if k < p {
                            k
                        } else {
                            k - 1
                        };
                        assert(groups[k] == old_groups[ok]);
                        assert(keys[ok] != f@);
                    }
                }
                assert forall|x: Seq<char>| #[trigger] group_keys(groups@).contains(x)
                    <==> has_folder(cur, x) by {
                    lemma_has_folder_push(pre, n@, x);
                    let nk = group_keys(groups@);
                    if nk.contains(x) {
                        let k = choose|k: int| 0 <= k < nk.len() && nk[k] == x;
                        if k < p {
                            assert(keys[k] == x);
                        } else if k > p {
                            assert(keys[k - 1] == x);
                        }
                    }
                    if keys.contains(x) {
                        let k = choose|k: int| 0 <= k < keys.len() && keys[k] == x;
                        if k < p {
                            assert(nk[k] == x);
                        } else {
                            assert(nk[k + 1] == x);
                        }
                    }
                    if x == f@ {
                        assert(nk[p as int] == x);
                    }
                }
            }
        }
        i = i + 1;
    }
    assert(ns.take(notes.len() as int) =~= ns);
    groups
}

proof fn lemma_has_folder_push(pre: Seq<NoteView>, n: NoteView, x: Seq<char>)
    ensures
        has_folder(pre.push(n), x) <==> (has_folder(pre, x) || n.folder == x),
{
    let c = pre.push(n);
    if has_folder(pre, x) {
        let i = choose|i: int| 0 <= i < pre.len() && #[trigger] pre[i].folder == x;
        assert(c[i] == pre[i]);
    }
    if n.folder == x {
        assert(c[pre.len() as int] == n);
    }
    if has_folder(c, x) {
        let i = choose|i: int| 0 <= i < c.len() && #[trigger] c[i].folder == x;
        if i < pre.len() {
            assert(c[i] == pre[i]);
        }
    }
}

proof fn lemma_lex_irrefl_keys(keys: Seq<Seq<char>>, a: int, b: int)
    requires
        keys_sorted(keys),
        0 <= a < keys.len(),
        0 <= b < keys.len(),
        a != b,
    ensures
        keys[a] != keys[b],
{
    if keys[a] == keys[b] {
        crate::text::lemma_lex_irrefl(keys[a]);
        if a < b {
            assert(lex_lt(keys[a], keys[b]));
        } else {
            assert(lex_lt(keys[b], keys[a]));
        }
    }
}

} // verus!
