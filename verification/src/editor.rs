//! The editor's text transforms: formatting a selection, continuing
//! markdown lists on Enter, task lines, text statistics and quick capture.

use vstd::prelude::*;
use vstd::string::StrSliceExecFns;
use crate::frontmatter::{lines, line_bounds};
use crate::note::Note;
use crate::paths::{trim_char, trim_char_bounds, untitled};
use crate::tags::{field_tags, join_with, normalize_tags};
use crate::number::{dec_nat, digits_value, push_succ};
use crate::text::{
    trim, trim_start, lead_ws, is_ws, occurs_at, chars_of, string_of, string_of_range, push_all,
    push_range, push_str, trim_range, is_whitespace, occurs_at_exec, is_digit,
};

verus! {

// ---------------------------------------------------------------------------
// Formatting a selection
// ---------------------------------------------------------------------------

/// `s` with the character range `sel` (clamped, either order) wrapped in
/// `open`/`close`; an empty selection gets the placeholder `ph`.
pub open spec fn wrapped(
    s: Seq<char>,
    sel: (usize, usize),
    open: Seq<char>,
    close: Seq<char>,
    ph: Seq<char>,
) -> Seq<char> {
    let x = if sel.0 < s.len() {
        sel.0 as int
    } else {
        s.len() as int
    };
    let y = if sel.1 < s.len() {
        sel.1 as int
    } else {
        s.len() as int
    };
    let a = if x <= y {
        x
    } else {
        y
    };
    let b = if x <= y {
        y
    } else {
        x
    };
    let inner = if a == b {
        ph
    } else {
        s.subrange(a, b)
    };
    s.take(a) + open + inner + close + s.skip(b)
}

/// Wrap the selected character range (or insert a placeholder) with markers.
pub fn md_wrap(body: &mut String, sel: (usize, usize), open: &str, close: &str, ph: &str)
    ensures
        final(body)@ == wrapped(old(body)@, sel, open@, close@, ph@),
{
    let chars = chars_of(body.as_str());
    let x = if sel.0 < chars.len() {
        sel.0
    } else {
        chars.len()
    };
    let y = if sel.1 < chars.len() {
        sel.1
    } else {
        chars.len()
    };
    let (a, b) = if x <= y {
        (x, y)
    } else {
        (y, x)
    };
    let mut out: Vec<char> = Vec::new();
    push_range(&mut out, &chars, 0, a);
    push_str(&mut out, open);
    if a == b {
        push_str(&mut out, ph);
    } else {
        push_range(&mut out, &chars, a, b);
    }
    push_str(&mut out, close);
    push_range(&mut out, &chars, b, chars.len());
    proof {
        assert(chars@.subrange(0, a as int) =~= chars@.take(a as int));
        assert(chars@.subrange(b as int, chars.len() as int) =~= chars@.skip(b as int));
        assert(out@ =~= wrapped(chars@, sel, open@, close@, ph@));
    }
    *body = string_of(&out);
}

/// A formatting shortcut.
#[derive(Clone, Copy, PartialEq, Eq, Debug, Structural)]
pub enum MdCmd {
    Bold,
    Italic,
    Code,
    Link,
}

/// Opening marker, closing marker and placeholder of a shortcut.
pub open spec fn md_markers(cmd: MdCmd) -> (Seq<char>, Seq<char>, Seq<char>) {
    match cmd {
        MdCmd::Bold => (seq!['*', '*'], seq!['*', '*'], seq!['b', 'o', 'l', 'd']),
        MdCmd::Italic => (seq!['*'], seq!['*'], seq!['i', 't', 'a', 'l', 'i', 'c']),
        MdCmd::Code => (seq!['`'], seq!['`'], seq!['c', 'o', 'd', 'e']),
        MdCmd::Link => (seq!['['], seq![']', '(', 'u', 'r', 'l', ')'], seq!['t', 'e', 'x', 't']),
    }
}

fn vec_string(v: Vec<char>) -> (s: String)
    ensures
        s@ == v@,
{
    string_of(&v)
}

/// Applies a formatting shortcut to `body` at the selection (the end of the
/// text when there is none): `**bold**`, `*italic*`, `` `code` ``, `[text](url)`.
pub fn apply_md(body: &mut String, sel: Option<(usize, usize)>, cmd: MdCmd)
    ensures
        ({
            let n = old(body)@.len();
            let s = match sel {
                Some(p) => p,
                None => (n as usize, n as usize),
            };
            let (o, c, p) = md_markers(cmd);
            final(body)@ == wrapped(old(body)@, s, o, c, p)
        }),
{
    let n = chars_of(body.as_str()).len();
    let s = match sel {
        Some(p) => p,
        None => (n, n),
    };
    let (o, c, p) = match cmd {
        MdCmd::Bold => (vec!['*', '*'], vec!['*', '*'], vec!['b', 'o', 'l', 'd']),
        MdCmd::Italic => (vec!['*'], vec!['*'], vec!['i', 't', 'a', 'l', 'i', 'c']),
        MdCmd::Code => (vec!['`'], vec!['`'], vec!['c', 'o', 'd', 'e']),
        MdCmd::Link => (vec!['['], vec![']', '(', 'u', 'r', 'l', ')'], vec!['t', 'e', 'x', 't']),
    };
    proof {
        let (so, sc, sp) = md_markers(cmd);
        assert(o@ =~= so);
        assert(c@ =~= sc);
        assert(p@ =~= sp);
    }
    let os = vec_string(o);
    let cs = vec_string(c);
    let ps = vec_string(p);
    md_wrap(body, s, os.as_str(), cs.as_str(), ps.as_str());
}

// ---------------------------------------------------------------------------
// Continuing markdown lists
// ---------------------------------------------------------------------------

/// How Enter continues a list line.
pub enum ListEdit {
    /// Prefix to insert on the new line to continue the list.
    Continue(String),
    /// Previous line was an empty marker — clear it to end the list.
    ClearPrev,
}

/// `ListEdit` as plain values.
pub enum ListStep {
    Continue(Seq<char>),
    ClearPrev,
}

impl View for ListEdit {
    type V = ListStep;

    open spec fn view(&self) -> ListStep {
        match self {
            ListEdit::Continue(s) => ListStep::Continue(s@),
            ListEdit::ClearPrev => ListStep::ClearPrev,
        }
    }
}

pub open spec fn starts_with(s: Seq<char>, p: Seq<char>) -> bool {
    occurs_at(s, 0, p)
}

/// Number of leading ASCII digits.
pub open spec fn lead_digits(s: Seq<char>) -> nat
    decreases s.len(),
{
    if s.len() > 0 && is_digit(s[0]) {
        1 + lead_digits(s.drop_first())
    } else {
        0
    }
}

/// The list marker of a line (after its indent) and the item's content, or
/// `None` when the line is not a list item. A checked box continues as an
/// unchecked one; an ordered item continues with its number plus one.
pub open spec fn list_marker(rest: Seq<char>) -> Option<(Seq<char>, Seq<char>)> {
    if starts_with(rest, seq!['-', ' ', '[', ' ', ']', ' ']) || starts_with(
        rest,
        seq!['-', ' ', '[', 'x', ']', ' '],
    ) || starts_with(rest, seq!['-', ' ', '[', 'X', ']', ' ']) {
        Some((seq!['-', ' ', '[', ' ', ']', ' '], rest.skip(6)))
    } else if starts_with(rest, seq!['-', ' ']) || starts_with(rest, seq!['*', ' '])
        || starts_with(rest, seq!['+', ' ']) {
        Some((rest.take(2), rest.skip(2)))
    } else {
        let d = lead_digits(rest);
        let after = rest.skip(d as int);
        if d > 0 && starts_with(after, seq!['.', ' ']) {
            Some(
                (
                    dec_nat(digits_value(rest.take(d as int)) + 1) + seq!['.', ' '],
                    after.skip(2),
                ),
            )
        } else {
            None
        }
    }
}

/// How Enter on the line `prev` continues a list: the indent and marker to
/// put on the new line, `ClearPrev` when the item was empty, `None` when the
/// line is no list item.
pub open spec fn list_step(prev: Seq<char>) -> Option<ListStep> {
    let ind = lead_ws(prev) as int;
    match list_marker(prev.skip(ind)) {
        None => None,
        Some((marker, content)) => if trim(content).len() == 0 {
            Some(ListStep::ClearPrev)
        } else {
            Some(ListStep::Continue(prev.take(ind) + marker))
        },
    }
}

proof fn lemma_lead_digits(s: Seq<char>)
    ensures
        lead_digits(s) <= s.len(),
        forall|i: int| 0 <= i < lead_digits(s) ==> is_digit(#[trigger] s[i]),
        lead_digits(s) < s.len() ==> !is_digit(s[lead_digits(s) as int]),
    decreases s.len(),
{
    if s.len() > 0 && is_digit(s[0]) {
        lemma_lead_digits(s.drop_first());
        assert forall|i: int| 0 <= i < lead_digits(s) implies is_digit(#[trigger] s[i]) by {
            if i > 0 {
                assert(s[i] == s.drop_first()[i - 1]);
            }
        }
    }
}

proof fn lemma_lead_digits_unique(s: Seq<char>, k: int)
    requires
        0 <= k <= s.len(),
        forall|i: int| 0 <= i < k ==> is_digit(#[trigger] s[i]),
        k < s.len() ==> !is_digit(s[k]),
    ensures
        lead_digits(s) == k,
    decreases s.len(),
{
    if k > 0 {
        assert forall|i: int| 0 <= i < k - 1 implies is_digit(#[trigger] s.drop_first()[i]) by {
            assert(s.drop_first()[i] == s[i + 1]);
        }
        if k - 1 < s.len() - 1 {
            assert(s.drop_first()[k - 1] == s[k]);
        }
        lemma_lead_digits_unique(s.drop_first(), k - 1);
    }
}

fn starts2(v: &Vec<char>, i: usize, a: char, b: char) -> (r: bool)
    ensures
        r == occurs_at(v@, i as int, seq![a, b]),
{
    let pat: Vec<char> = vec![a, b];
    assert(pat@ =~= seq![a, b]);
    occurs_at_exec(v, i, &pat)
}

proof fn lemma_starts_skip(v: Seq<char>, i: int, p: Seq<char>)
    requires
        0 <= i <= v.len(),
    ensures
        starts_with(v.skip(i), p) == occurs_at(v, i, p),
{
    if i + p.len() <= v.len() {
        assert(v.skip(i).subrange(0, p.len() as int) =~= v.subrange(i, i + p.len()));
    }
}

/// Where the ordered-list check of `v[s..]` stands: the digit count, and
/// whether `". "` follows.
fn ordered_prefix(v: &Vec<char>, s: usize) -> (r: (usize, bool))
    requires
        s <= v.len(),
    ensures
        r.0 == lead_digits(v@.skip(s as int)),
        r.1 == starts_with(v@.skip(s as int).skip(r.0 as int), seq!['.', ' ']),
        s + r.0 <= v.len(),
        forall|i: int| s <= i < s + r.0 ==> is_digit(#[trigger] v@[i]),
{
    let mut e = s;
    while e < v.len() && '0' <= v[e] && v[e] <= '9'
        invariant
            s <= e <= v.len(),
            forall|i: int| s <= i < e ==> is_digit(#[trigger] v@[i]),
        decreases v.len() - e,
    {
        e = e + 1;
    }
    proof {
        let r = v@.skip(s as int);
        assert forall|i: int| 0 <= i < e - s implies is_digit(#[trigger] r[i]) by {
            assert(r[i] == v@[i + s]);
        }
        if e < v.len() {
            assert(r[e - s] == v@[e as int]);
        }
        lemma_lead_digits_unique(r, e - s);
        assert(r.skip(e - s) =~= v@.skip(e as int));
        lemma_starts_skip(v@, e as int, seq!['.', ' ']);
    }
    let dot = starts2(&v, e, '.', ' ');
    (e - s, dot)
}

/// The marker and content start of the list line `v[ind..]`.
fn marker_of(v: &Vec<char>, ind: usize) -> (r: Option<(Vec<char>, usize)>)
    requires
        ind <= v.len(),
    ensures
        match list_marker(v@.skip(ind as int)) {
            Some((m, c)) => r matches Some((rm, cs)) && rm@ == m && cs <= v.len() && v@.skip(
                cs as int,
            ) == c,
            None => r is None,
        },
{
    let ghost rest = v@.skip(ind as int);
    let cb_open: Vec<char> = vec!['-', ' ', '[', ' ', ']', ' '];
    let cb_x: Vec<char> = vec!['-', ' ', '[', 'x', ']', ' '];
    let cb_xx: Vec<char> = vec!['-', ' ', '[', 'X', ']', ' '];
    proof {
        assert(cb_open@ =~= seq!['-', ' ', '[', ' ', ']', ' ']);
        assert(cb_x@ =~= seq!['-', ' ', '[', 'x', ']', ' ']);
        assert(cb_xx@ =~= seq!['-', ' ', '[', 'X', ']', ' ']);
        lemma_starts_skip(v@, ind as int, cb_open@);
        lemma_starts_skip(v@, ind as int, cb_x@);
        lemma_starts_skip(v@, ind as int, cb_xx@);
        lemma_starts_skip(v@, ind as int, seq!['-', ' ']);
        lemma_starts_skip(v@, ind as int, seq!['*', ' ']);
        lemma_starts_skip(v@, ind as int, seq!['+', ' ']);
    }
    if occurs_at_exec(v, ind, &cb_open) || occurs_at_exec(v, ind, &cb_x) || occurs_at_exec(
        v,
        ind,
        &cb_xx,
    ) {
        proof {
            assert(rest.skip(6) =~= v@.skip(ind + 6));
        }
        return Some((cb_open, ind + 6));
    }
    if starts2(v, ind, '-', ' ') || starts2(v, ind, '*', ' ') || starts2(v, ind, '+', ' ') {
        let mut marker: Vec<char> = Vec::new();
        push_range(&mut marker, v, ind, ind + 2);
        proof {
            assert(marker@ =~= rest.take(2));
            assert(rest.skip(2) =~= v@.skip(ind + 2));
        }
        return Some((marker, ind + 2));
    }
    let (d, dot) = ordered_prefix(v, ind);
    if d == 0 || !dot {
        return None;
    }
    proof {
        assert(rest.take(d as int) =~= v@.subrange(ind as int, ind + d));
    }
    let mut marker: Vec<char> = Vec::new();
    push_succ(&mut marker, v, ind, ind + d);
    marker.push('.');
    marker.push(' ');
    proof {
        assert(marker@ =~= dec_nat(digits_value(rest.take(d as int)) + 1) + seq!['.', ' ']);
        assert(rest.skip(d as int).skip(2) =~= v@.skip(ind + d + 2));
    }
    Some((marker, ind + d + 2))
}

/// Given the line the user just pressed Enter on, decide how to continue a
/// markdown list: repeat the bullet/checkbox, increment an ordered number, or
/// (when the item was empty) end the list. `None` = not a list line.
pub fn list_continuation(prev: &str) -> (r: Option<ListEdit>)
    ensures
        match r {
            Some(e) => list_step(prev@) == Some(e@),
            None => list_step(prev@) is None,
        },
{
    let v = chars_of(prev);
    let (ind, _) = trim_range(&v, 0, v.len());
    assert(v@.subrange(0, v.len() as int) =~= v@);
    let (marker, cs) = match marker_of(&v, ind) {
        None => {
            return None;
        },
        Some(x) => x,
    };
    proof {
        assert(v@.subrange(cs as int, v.len() as int) =~= v@.skip(cs as int));
    }
    let (ca, cb) = trim_range(&v, cs, v.len());
    if ca == cb {
        Some(ListEdit::ClearPrev)
    } else {
        let mut out: Vec<char> = Vec::new();
        push_range(&mut out, &v, 0, ind);
        push_all(&mut out, &marker);
        proof {
            assert(out@ =~= v@.take(ind as int) + marker@);
        }
        Some(ListEdit::Continue(string_of(&out)))
    }
}

/// Start of the line that holds position `k` (just past the last `\n`
/// before it).
pub open spec fn line_start(s: Seq<char>, k: int) -> int
    decreases k,
{
    if k <= 0 {
        0
    } else if s[k - 1] == '\n' {
        k
    } else {
        line_start(s, k - 1)
    }
}

/// The text and caret after Enter at caret `ci` (the newline just typed sits
/// before it) continues or ends a markdown list; `None` when the line before
/// is no list item.
pub open spec fn continued(s: Seq<char>, ci: int) -> Option<(Seq<char>, int)> {
    if 1 <= ci <= s.len() && s[ci - 1] == '\n' {
        let nl = ci - 1;
        let ps = line_start(s, nl);
        match list_step(s.subrange(ps, nl)) {
            Some(ListStep::Continue(ins)) => Some((s.take(ci) + ins + s.skip(ci), ci + ins.len())),
            Some(ListStep::ClearPrev) => Some((s.take(ps) + s.skip(nl), ci - (nl - ps))),
            None => None,
        }
    } else {
        None
    }
}

proof fn lemma_line_start(s: Seq<char>, k: int)
    requires
        0 <= k <= s.len(),
    ensures
        0 <= line_start(s, k) <= k,
    decreases k,
{
    if k > 0 && s[k - 1] != '\n' {
        lemma_line_start(s, k - 1);
    }
}

/// Enter was pressed in the editor with the caret at character `cursor`:
/// continue the list on the new line, or clear an empty item to end the list.
/// Returns the new text and caret, or `None` to leave the text as it is.
pub fn continue_list(body: &str, cursor: usize) -> (r: Option<(String, usize)>)
    ensures
        match continued(body@, cursor as int) {
            Some((t, c)) => r matches Some((rt, rc)) && rt@ == t && rc == c,
            None => r is None,
        },
{
    let v = chars_of(body);
    if !(cursor >= 1 && cursor <= v.len() && v[cursor - 1] == '\n') {
        return None;
    }
    let nl = cursor - 1;
    let mut ps = nl;
    while ps > 0 && v[ps - 1] != '\n'
        invariant
            ps <= nl < v.len(),
            line_start(v@, nl as int) == line_start(v@, ps as int),
        decreases ps,
    {
        ps = ps - 1;
    }
    proof {
        lemma_line_start(v@, nl as int);
    }
    let prev = string_of_range(&v, ps, nl);
    match list_continuation(prev.as_str()) {
        None => None,
        Some(ListEdit::Continue(ins)) => {
            let iv = chars_of(ins.as_str());
            let mut out: Vec<char> = Vec::new();
            push_range(&mut out, &v, 0, cursor);
            push_all(&mut out, &iv);
            push_range(&mut out, &v, cursor, v.len());
            proof {
                assert(out@ =~= v@.take(cursor as int) + ins@ + v@.skip(cursor as int));
            }
            let total = out.len();
            assert(total == cursor + iv.len() + (v.len() - cursor));
            Some((string_of(&out), cursor + iv.len()))
        },
        Some(ListEdit::ClearPrev) => {
            let mut out: Vec<char> = Vec::new();
            push_range(&mut out, &v, 0, ps);
            push_range(&mut out, &v, nl, v.len());
            proof {
                assert(out@ =~= v@.take(ps as int) + v@.skip(nl as int));
            }
            Some((string_of(&out), cursor - (nl - ps)))
        },
    }
}

// ---------------------------------------------------------------------------
// Tasks
// ---------------------------------------------------------------------------

/// Text of a markdown task line: `- [ ] text` when `done` is false,
/// `- [x] text` (or `X`) when it is true; `-`, `*` and `+` bullets. One space
/// after the box is dropped.
pub open spec fn task_of(l: Seq<char>, done: bool) -> Option<Seq<char>> {
    if l.len() >= 5 && (l[0] == '-' || l[0] == '*' || l[0] == '+') && l[1] == ' ' && l[2] == '['
        && l[4] == ']' {
        let after = l.skip(5);
        let text = if after.len() > 0 && after[0] == ' ' {
            after.skip(1)
        } else {
            after
        };
        let m = l[3];
        if (done && (m == 'x' || m == 'X')) || (!done && m == ' ') {
            Some(text)
        } else {
            None
        }
    } else {
        None
    }
}

/// Parse a markdown task line. `done=false` returns text of `- [ ]` items,
/// `done=true` returns text of `- [x]` items. Supports -, *, + bullets.
pub fn task_text(l: &str, done: bool) -> (r: Option<&str>)
    ensures
        match task_of(l@, done) {
            Some(t) => r matches Some(s) && s@ == t,
            None => r is None,
        },
{
    let v = chars_of(l);
    assert(v@.subrange(0, v.len() as int) =~= l@);
    match task_start(&v, 0, v.len(), done) {
        Some(a) => Some(l.substring_char(a, v.len())),
        None => None,
    }
}

/// Where the text of the task line `v[from..to]` starts, if it is one.
fn task_start(v: &Vec<char>, from: usize, to: usize, done: bool) -> (r: Option<usize>)
    requires
        from <= to <= v.len(),
    ensures
        match task_of(v@.subrange(from as int, to as int), done) {
            Some(t) => r matches Some(a) && from <= a <= to && v@.subrange(a as int, to as int)
                == t,
            None => r is None,
        },
{
    let ghost l = v@.subrange(from as int, to as int);
    if to - from < 5 {
        return None;
    }
    let b = v[from];
    if !((b == '-' || b == '*' || b == '+') && v[from + 1] == ' ' && v[from + 2] == '[' && v[from
        + 4] == ']') {
        return None;
    }
    let m = v[from + 3];
    if !((done && (m == 'x' || m == 'X')) || (!done && m == ' ')) {
        return None;
    }
    let mut a = from + 5;
    if a < to && v[a] == ' ' {
        a = a + 1;
    }
    proof {
        let after = l.skip(5);
        assert(after =~= v@.subrange(from + 5, to as int));
        if after.len() > 0 && after[0] == ' ' {
            assert(after.skip(1) =~= v@.subrange(from + 6, to as int));
        }
    }
    Some(a)
}

/// Open task texts and the number of done tasks among `ls` (each line's
/// leading whitespace ignored).
pub open spec fn tally(ls: Seq<Seq<char>>) -> (Seq<Seq<char>>, nat)
    decreases ls.len(),
{
    if ls.len() == 0 {
        (Seq::empty(), 0)
    } else {
        let (open, done) = tally(ls.drop_last());
        let l = trim_start(ls.last());
        match task_of(l, false) {
            Some(t) => (open.push(t), done),
            None => match task_of(l, true) {
                Some(_) => (open, done + 1),
                None => (open, done),
            },
        }
    }
}

/// Whitespace before a line is counted by `lead_ws` along with the line's own.
proof fn lemma_lead_ws_prefix(w: Seq<char>, l: Seq<char>)
    requires
        forall|k: int| 0 <= k < w.len() ==> is_ws(#[trigger] w[k]),
    ensures
        lead_ws(w + l) == w.len() + lead_ws(l),
        trim_start(w + l) == trim_start(l),
    decreases w.len(),
{
    if w.len() > 0 {
        let r = w.drop_first();
        assert forall|k: int| 0 <= k < r.len() implies is_ws(#[trigger] r[k]) by {
            assert(r[k] == w[k + 1]);
        }
        lemma_lead_ws_prefix(r, l);
        assert((w + l)[0] == w[0]);
        assert((w + l).drop_first() =~= r + l);
    } else {
        assert(w + l =~= l);
    }
    crate::text::lemma_lead_ws(l);
    assert((w + l).skip((w.len() + lead_ws(l)) as int) =~= l.skip(lead_ws(l) as int));
}

/// Indentation does not change what a line is: putting whitespace before
/// any one line leaves the open tasks (texts and order) and the done count
/// as they were.
pub proof fn lemma_tally_indent(ls: Seq<Seq<char>>, i: int, w: Seq<char>)
    requires
        0 <= i < ls.len(),
        forall|k: int| 0 <= k < w.len() ==> is_ws(#[trigger] w[k]),
    ensures
        tally(ls.update(i, w + ls[i])) == tally(ls),
    decreases ls.len(),
{
    let u = ls.update(i, w + ls[i]);
    if i == ls.len() - 1 {
        assert(u.drop_last() =~= ls.drop_last());
        lemma_lead_ws_prefix(w, ls[i]);
    } else {
        let p = ls.drop_last();
        lemma_tally_indent(p, i, w);
        assert(u.drop_last() =~= p.update(i, w + p[i]));
        assert(u.last() == ls.last());
    }
}

/// A line `- [ ] x` adds `x` to the open tasks, after those of the lines
/// before it, however far it is indented; the done count is unchanged.
pub proof fn lemma_tally_open_line(ls: Seq<Seq<char>>, w: Seq<char>, x: Seq<char>)
    requires
        forall|k: int| 0 <= k < w.len() ==> is_ws(#[trigger] w[k]),
    ensures
        tally(ls.push(w + seq!['-', ' ', '[', ' ', ']', ' '] + x)) == (
            tally(ls).0.push(x),
            tally(ls).1,
        ),
{
    let m = seq!['-', ' ', '[', ' ', ']', ' '] + x;
    let l = w + seq!['-', ' ', '[', ' ', ']', ' '] + x;
    assert(l =~= w + m);
    lemma_lead_ws_prefix(w, m);
    assert(!is_ws(m[0]));
    crate::text::lemma_lead_ws_unique(m, 0);
    assert(m.skip(0) =~= m);
    assert(ls.push(l).drop_last() =~= ls);
    assert(m.skip(5) =~= seq![' '] + x);
    assert(m.skip(5).skip(1) =~= x);
}

/// The open tasks of a note body, in order, and how many tasks are done (the
/// task rollup).
pub fn task_summary(body: &str) -> (r: (Vec<String>, usize))
    ensures
        r.0@.map_values(|x: String| x@) == tally(lines(body@)).0,
        r.1 == tally(lines(body@)).1,
{
    let v = chars_of(body);
    let bounds = line_bounds(&v);
    let ghost ls = lines(v@);
    let mut open: Vec<String> = Vec::new();
    let mut done: usize = 0;
    let mut i: usize = 0;
    while i < bounds.len()
        invariant
            i <= bounds.len(),
            ls == lines(v@),
            bounds.len() == ls.len(),
            forall|j: int|
                0 <= j < bounds.len() ==> #[trigger] bounds[j].0 <= bounds[j].1 <= v.len()
                    && v@.subrange(bounds[j].0 as int, bounds[j].1 as int) == ls[j],
            open@.map_values(|x: String| x@) == tally(ls.take(i as int)).0,
            done == tally(ls.take(i as int)).1,
            done <= i,
        decreases bounds.len() - i,
    {
        let (a, b) = bounds[i];
        let (ta, _) = trim_range(&v, a, b);
        proof {
            let line = ls[i as int];
            assert(ls.take(i + 1).drop_last() =~= ls.take(i as int));
            assert(ls.take(i + 1).last() == line);
            assert(v@.subrange(ta as int, b as int) =~= trim_start(line));
        }
        let ghost before = open@.map_values(|x: String| x@);
        match task_start(&v, ta, b, false) {
            Some(s) => {
                open.push(string_of_range(&v, s, b));
                proof {
                    assert(open@.map_values(|x: String| x@) =~= before.push(
                        v@.subrange(s as int, b as int),
                    ));
                }
            },
            None => {
                match task_start(&v, ta, b, true) {
                    Some(_) => {
                        done = done + 1;
                    },
                    None => {},
                }
            },
        }
        i = i + 1;
    }
    assert(ls.take(bounds.len() as int) =~= ls);
    (open, done)
}

// ---------------------------------------------------------------------------
// Text statistics
// ---------------------------------------------------------------------------

/// Number of words (maximal runs of non-whitespace), as
/// `split_whitespace().count()`.
pub open spec fn word_count(s: Seq<char>) -> nat
    decreases s.len(),
{
    if s.len() == 0 {
        0
    } else {
        word_count(s.drop_last()) + (if !is_ws(s.last()) && (s.len() == 1 || is_ws(
            s[s.len() - 2],
        )) {
            1nat
        } else {
            0nat
        })
    }
}

/// Minutes to read `words` at about 200 a minute, at least one.
pub open spec fn read_minutes(words: nat) -> nat {
    if words == 0 {
        1
    } else {
        ((words + 199) / 200) as nat
    }
}

/// Word count, character count and reading time of a body.
pub fn text_stats(body: &str) -> (r: (usize, usize, usize))
    ensures
        r.0 == word_count(body@),
        r.1 == body@.len(),
        r.2 == read_minutes(word_count(body@)),
{
    let v = chars_of(body);
    let mut words: usize = 0;
    let mut i: usize = 0;
    while i < v.len()
        invariant
            i <= v.len(),
            words == word_count(v@.take(i as int)),
            words <= i,
        decreases v.len() - i,
    {
        let starts = !is_whitespace(v[i]) && (i == 0 || is_whitespace(v[i - 1]));
        proof {
            let t = v@.take(i + 1);
            assert(t.drop_last() =~= v@.take(i as int));
            assert(t.last() == v@[i as int]);
            if i > 0 {
                assert(t[t.len() - 2] == v@[i - 1]);
            }
        }
        if starts {
            words = words + 1;
        }
        i = i + 1;
    }
    assert(v@.take(v.len() as int) =~= v@);
    let mins: usize = if words == 0 {
        1
    } else {
        words / 200 + (if words % 200 == 0 {
            0
        } else {
            1
        })
    };
    proof {
        if words > 0 {
            assert(((words + 199) / 200) as nat == words / 200 + (if words % 200 == 0 {
                0nat
            } else {
                1nat
            })) by (nonlinear_arith)
                requires
                    words > 0,
            ;
        }
    }
    (words, v.len(), mins)
}

// ---------------------------------------------------------------------------
// Quick capture, saving from the editor, display
// ---------------------------------------------------------------------------

/// The journal body after filing `text` at `stamp`: on a line of its own
/// (a newline added if the body does not end with one), as `- <stamp> <text>`.
/// `None` when the trimmed text is empty.
pub open spec fn captured(body: Seq<char>, stamp: Seq<char>, text: Seq<char>) -> Option<Seq<char>> {
    let t = trim(text);
    if t.len() == 0 {
        None
    } else {
        let b = if body.len() > 0 && body.last() != '\n' {
            body.push('\n')
        } else {
            body
        };
        Some(b + seq!['-', ' '] + stamp + seq![' '] + t + seq!['\n'])
    }
}

/// Files a quick-capture line into today's journal body.
pub fn capture_entry(body: &str, stamp: &str, text: &str) -> (r: Option<String>)
    ensures
        match captured(body@, stamp@, text@) {
            Some(b) => r matches Some(s) && s@ == b,
            None => r is None,
        },
{
    let tv = chars_of(text);
    let (a, b) = trim_range(&tv, 0, tv.len());
    assert(tv@.subrange(0, tv.len() as int) =~= tv@);
    if a == b {
        return None;
    }
    let mut out = chars_of(body);
    if out.len() > 0 && out[out.len() - 1] != '\n' {
        out.push('\n');
    }
    out.push('-');
    out.push(' ');
    push_str(&mut out, stamp);
    out.push(' ');
    push_range(&mut out, &tv, a, b);
    out.push('\n');
    Some(string_of(&out))
}

/// The note the editor saves: its fields as typed, the folder trimmed of
/// whitespace and of `/` at either end, the tags normalized; timestamps are
/// left to the save.
pub fn compose_note(id: String, title: &str, body: &str, folder: &str, tags: &str) -> (n: Note)
    ensures
        n.id@ == id@,
        n.title@ == title@,
        n.body@ == body@,
        n.folder@ == trim_char(trim(folder@), '/'),
        n.tags@ == join_with(field_tags(tags@), seq![',', ' ']),
        n.created_at == 0,
        n.updated_at == 0,
        n.deleted_at is None,
{
    let fv = chars_of(folder);
    let (a, b) = trim_range(&fv, 0, fv.len());
    assert(fv@.subrange(0, fv.len() as int) =~= fv@);
    let mut t: Vec<char> = Vec::new();
    push_range(&mut t, &fv, a, b);
    let (c, d) = trim_char_bounds(&t, '/');
    Note {
        id,
        title: title.to_owned(),
        body: body.to_owned(),
        folder: string_of_range(&t, c, d),
        tags: normalize_tags(tags),
        created_at: 0,
        updated_at: 0,
        deleted_at: None,
    }
}

/// How a note is listed: its title, or `untitled` when that is blank.
pub fn display_title(title: &str) -> (r: String)
    ensures
        r@ == (if trim(title@).len() == 0 {
            untitled()
        } else {
            title@
        }),
{
    let t = crate::text::trim_str(title);
    if t.as_str().is_empty() {
        let u: Vec<char> = vec!['u', 'n', 't', 'i', 't', 'l', 'e', 'd'];
        assert(u@ =~= untitled());
        string_of(&u)
    } else {
        title.to_owned()
    }
}

// ---------------------------------------------------------------------------
// The open note
// ---------------------------------------------------------------------------

/// The note open in the editor: which one, its fields as being typed, and
/// whether they changed since it was loaded or last saved.
pub struct EditorState {
    pub selected: Option<String>,
    pub title: String,
    pub body: String,
    pub folder: String,
    pub tags: String,
    pub dirty: bool,
}

impl EditorState {
    /// No note open.
    pub fn new() -> (e: EditorState)
        ensures
            e.selected is None,
            e.title@ == Seq::<char>::empty(),
            e.body@ == Seq::<char>::empty(),
            e.folder@ == Seq::<char>::empty(),
            e.tags@ == Seq::<char>::empty(),
            !e.dirty,
    {
        EditorState {
            selected: None,
            title: String::new(),
            body: String::new(),
            folder: String::new(),
            tags: String::new(),
            dirty: false,
        }
    }

    /// Opens `note`: its id is selected, its fields fill the editor, and
    /// nothing is unsaved.
    pub fn load(&mut self, note: &Note)
        ensures
            final(self).selected matches Some(id) && id@ == note.id@,
            final(self).title@ == note.title@,
            final(self).body@ == note.body@,
            final(self).folder@ == note.folder@,
            final(self).tags@ == note.tags@,
            !final(self).dirty,
    {
        self.selected = Some(note.id.clone());
        self.title = note.title.clone();
        self.body = note.body.clone();
        self.folder = note.folder.clone();
        self.tags = note.tags.clone();
        self.dirty = false;
    }

    /// An edit happened: the fields are now unsaved.
    pub fn touch(&mut self)
        ensures
            final(self).dirty,
            final(self).selected == old(self).selected,
            final(self).title == old(self).title,
            final(self).body == old(self).body,
            final(self).folder == old(self).folder,
            final(self).tags == old(self).tags,
    {
        self.dirty = true;
    }

    /// Closes the note (after a delete): nothing selected, every field empty,
    /// nothing unsaved.
    pub fn clear(&mut self)
        ensures
            final(self).selected is None,
            final(self).title@ == Seq::<char>::empty(),
            final(self).body@ == Seq::<char>::empty(),
            final(self).folder@ == Seq::<char>::empty(),
            final(self).tags@ == Seq::<char>::empty(),
            !final(self).dirty,
    {
        self.selected = None;
        self.title = String::new();
        self.body = String::new();
        self.folder = String::new();
        self.tags = String::new();
        self.dirty = false;
    }

    /// The note a flush would save: `None` when nothing is unsaved or no note
    /// is open, else the editor's fields composed for saving.
    pub fn pending_save(&self) -> (r: Option<Note>)
        ensures
            match self.selected {
                Some(id) => if self.dirty {
                    r matches Some(n) && n.id@ == id@ && n.title@ == self.title@ && n.body@
                        == self.body@ && n.folder@ == trim_char(trim(self.folder@), '/')
                        && n.tags@ == join_with(field_tags(self.tags@), seq![',', ' '])
                        && n.created_at == 0 && n.updated_at == 0 && n.deleted_at is None
                } else {
                    r is None
                },
                None => r is None,
            },
    {
        if !self.dirty {
            return None;
        }
        match &self.selected {
            None => None,
            Some(id) => Some(
                compose_note(
                    id.clone(),
                    self.title.as_str(),
                    self.body.as_str(),
                    self.folder.as_str(),
                    self.tags.as_str(),
                ),
            ),
        }
    }

    /// The save went through: nothing is unsaved any more.
    pub fn mark_saved(&mut self)
        ensures
            !final(self).dirty,
            final(self).selected == old(self).selected,
            final(self).title == old(self).title,
            final(self).body == old(self).body,
            final(self).folder == old(self).folder,
            final(self).tags == old(self).tags,
    {
        self.dirty = false;
    }

    /// The open note is `id`.
    pub fn is_selected(&self, id: &str) -> (b: bool)
        ensures
            b == (self.selected matches Some(s) && s@ == id@),
    {
        match &self.selected {
            None => false,
            Some(s) => crate::text::vec_eq(&chars_of(s.as_str()), &chars_of(id)),
        }
    }
}

} // verus!
