//! Removing the common leading whitespace of the lines of a text.
//!
//! The algorithm follows the `dedent` of the `textwrap` crate (MIT License,
//! Copyright (c) 2016 Martin Geisler).

use vstd::prelude::*;

use crate::text::{chars_of, is_whitespace, is_ws, string_of};

verus! {

// ----------------------------------------------------------------------------
// Lines
// ----------------------------------------------------------------------------

/// A line that was ended by `"\r\n"` loses its `'\r'`.
pub open spec fn strip_cr(l: Seq<char>) -> Seq<char> {
    if l.len() > 0 && l.last() == '\r' {
        l.drop_last()
    } else {
        l
    }
}

/// Splitting `s` at `'\n'`: the lines ended so far, and the unfinished one.
pub open spec fn split_acc(s: Seq<char>) -> (Seq<Seq<char>>, Seq<char>)
    decreases s.len(),
{
    if s.len() == 0 {
        (seq![], seq![])
    } else {
        let (done, cur) = split_acc(s.drop_last());
        if s.last() == '\n' {
            (done.push(strip_cr(cur)), seq![])
        } else {
            (done, cur.push(s.last()))
        }
    }
}

/// The lines of `s`, as `str::lines` yields them: split at `'\n'` or `"\r\n"`;
/// a last line without a line ending is kept only when it is not empty.
pub open spec fn lines_of(s: Seq<char>) -> Seq<Seq<char>> {
    let (done, cur) = split_acc(s);
    if cur.len() == 0 {
        done
    } else {
        done.push(cur)
    }
}

// ----------------------------------------------------------------------------
// Indentation
// ----------------------------------------------------------------------------

/// The number of whitespace characters that `l` starts with.
pub open spec fn indent_len(l: Seq<char>) -> nat
    decreases l.len(),
{
    if l.len() == 0 {
        0
    } else if is_ws(l[0]) {
        1 + indent_len(l.drop_first())
    } else {
        0
    }
}

/// `l` holds whitespace only (an empty line does too).
pub open spec fn is_blank(l: Seq<char>) -> bool {
    forall|i: int| 0 <= i < l.len() ==> is_ws(#[trigger] l[i])
}

/// The index of the first line that is not blank (`ls.len()` when there is none).
pub open spec fn first_nonblank(ls: Seq<Seq<char>>) -> nat
    decreases ls.len(),
{
    if ls.len() == 0 {
        0
    } else if !is_blank(ls[0]) {
        0
    } else {
        1 + first_nonblank(ls.drop_first())
    }
}

/// The first index at which `a` and `b` differ, or the length of the shorter one.
pub open spec fn first_diff(a: Seq<char>, b: Seq<char>) -> nat
    decreases a.len(),
{
    if a.len() == 0 || b.len() == 0 {
        0
    } else if a[0] != b[0] {
        0
    } else {
        1 + first_diff(a.drop_first(), b.drop_first())
    }
}

/// The prefix after looking at line `l`: it is cut where `l` differs from it.
pub open spec fn shrink(p: Seq<char>, l: Seq<char>) -> Seq<char> {
    let d = first_diff(l, p);
    if d < l.len() && d < p.len() {
        p.take(d as int)
    } else {
        p
    }
}

/// The prefix after looking at each line of `ls` in turn.
pub open spec fn prefix_fold(p: Seq<char>, ls: Seq<Seq<char>>) -> Seq<char>
    decreases ls.len(),
{
    if ls.len() == 0 {
        p
    } else {
        shrink(prefix_fold(p, ls.drop_last()), ls.last())
    }
}

/// The whitespace that `dedent` removes from the lines `ls`: the indentation of
/// the first non-blank line, cut down by every later line.
pub open spec fn common_prefix(ls: Seq<Seq<char>>) -> Seq<char> {
    let f = first_nonblank(ls) as int;
    if f < ls.len() {
        prefix_fold(ls[f].take(indent_len(ls[f]) as int), ls.skip(f + 1))
    } else {
        seq![]
    }
}

/// What line `l` becomes: without the prefix `p` when it starts with `p` and is
/// not blank; empty otherwise.
pub open spec fn out_line(l: Seq<char>, p: Seq<char>) -> Seq<char> {
    if p.is_prefix_of(l) && !is_blank(l) {
        l.skip(p.len() as int)
    } else {
        seq![]
    }
}

/// The output lines of `ls`, each followed by `'\n'`.
pub open spec fn body(ls: Seq<Seq<char>>, p: Seq<char>) -> Seq<char>
    decreases ls.len(),
{
    if ls.len() == 0 {
        seq![]
    } else {
        body(ls.drop_last(), p) + out_line(ls.last(), p).push('\n')
    }
}

pub open spec fn ends_with_newline(s: Seq<char>) -> bool {
    s.len() > 0 && s.last() == '\n'
}

/// The text that `dedent(s)` returns.
pub open spec fn dedent_spec(s: Seq<char>) -> Seq<char> {
    let ls = lines_of(s);
    let r = body(ls, common_prefix(ls));
    if ends_with_newline(r) && !ends_with_newline(s) {
        r.drop_last()
    } else {
        r
    }
}

// ----------------------------------------------------------------------------
// Facts about the definitions
// ----------------------------------------------------------------------------

proof fn lemma_indent_len(l: Seq<char>, k: int)
    requires
        0 <= k <= l.len(),
        forall|j: int| 0 <= j < k ==> is_ws(#[trigger] l[j]),
        k == l.len() || !is_ws(l[k]),
    ensures
        indent_len(l) == k,
    decreases k,
{
    if k > 0 {
        lemma_indent_len(l.drop_first(), k - 1);
    }
}

proof fn lemma_indent_len_facts(l: Seq<char>)
    ensures
        indent_len(l) <= l.len(),
        forall|j: int| 0 <= j < indent_len(l) ==> is_ws(#[trigger] l[j]),
        indent_len(l) < l.len() ==> !is_ws(l[indent_len(l) as int]),
        is_blank(l) <==> indent_len(l) == l.len(),
    decreases l.len(),
{
    if l.len() > 0 && is_ws(l[0]) {
        let t = l.drop_first();
        lemma_indent_len_facts(t);
        assert forall|j: int| 0 <= j < indent_len(l) implies is_ws(#[trigger] l[j]) by {
            if j > 0 {
                assert(l[j] == t[j - 1]);
            }
        }
        if is_blank(l) {
            assert forall|j: int| 0 <= j < t.len() implies is_ws(#[trigger] t[j]) by {
                assert(t[j] == l[j + 1]);
            }
        }
        if indent_len(l) == l.len() {
            assert forall|j: int| 0 <= j < l.len() implies is_ws(#[trigger] l[j]) by {}
        }
    } else if l.len() > 0 {
        assert(!is_ws(l[0]));
    }
}

proof fn lemma_first_diff(a: Seq<char>, b: Seq<char>, k: int)
    requires
        0 <= k <= a.len(),
        k <= b.len(),
        forall|j: int| 0 <= j < k ==> a[j] == b[j],
        k == a.len() || k == b.len() || a[k] != b[k],
    ensures
        first_diff(a, b) == k,
    decreases k,
{
    if k > 0 {
        let a1 = a.drop_first();
        let b1 = b.drop_first();
        assert forall|j: int| 0 <= j < k - 1 implies a1[j] == b1[j] by {
            assert(a[j + 1] == b[j + 1]);
        }
        lemma_first_diff(a1, b1, k - 1);
    }
}

proof fn lemma_first_nonblank(ls: Seq<Seq<char>>, f: int)
    requires
        0 <= f <= ls.len(),
        forall|j: int| 0 <= j < f ==> is_blank(#[trigger] ls[j]),
        f == ls.len() || !is_blank(ls[f]),
    ensures
        first_nonblank(ls) == f,
    decreases f,
{
    if f > 0 {
        let t = ls.drop_first();
        assert(is_blank(ls[0]));
        assert forall|j: int| 0 <= j < f - 1 implies is_blank(#[trigger] t[j]) by {
            assert(t[j] == ls[j + 1]);
        }
        lemma_first_nonblank(t, f - 1);
    }
}

proof fn lemma_split_acc_step(s: Seq<char>, i: int)
    requires
        0 <= i < s.len(),
    ensures
        split_acc(s.take(i + 1)) == ({
            let (done, cur) = split_acc(s.take(i));
            if s[i] == '\n' {
                (done.push(strip_cr(cur)), Seq::<char>::empty())
            } else {
                (done, cur.push(s[i]))
            }
        }),
{
    assert(s.take(i + 1).drop_last() == s.take(i));
}

/// The characters of `s` that are not whitespace, in order.
pub open spec fn visible(s: Seq<char>) -> Seq<char>
    decreases s.len(),
{
    if s.len() == 0 {
        seq![]
    } else if is_ws(s.last()) {
        visible(s.drop_last())
    } else {
        visible(s.drop_last()).push(s.last())
    }
}

/// The visible characters of the lines `ls`, one line after the other.
pub open spec fn visible_lines(ls: Seq<Seq<char>>) -> Seq<char>
    decreases ls.len(),
{
    if ls.len() == 0 {
        seq![]
    } else {
        visible_lines(ls.drop_last()) + visible(ls.last())
    }
}

pub(crate) proof fn lemma_visible_concat(a: Seq<char>, b: Seq<char>)
    ensures
        visible(a + b) == visible(a) + visible(b),
    decreases b.len(),
{
    if b.len() > 0 {
        assert((a + b).drop_last() == a + b.drop_last());
        lemma_visible_concat(a, b.drop_last());
    } else {
        assert(a + b == a);
    }
}

pub(crate) proof fn lemma_visible_one(c: char)
    ensures
        is_ws(c) ==> visible(seq![c]) == Seq::<char>::empty(),
        !is_ws(c) ==> visible(seq![c]) == seq![c],
{
    assert(seq![c].drop_last() =~= Seq::<char>::empty());
    assert(seq![c].last() == c);
    assert(visible(Seq::<char>::empty()) == Seq::<char>::empty());
    assert(Seq::<char>::empty().push(c) =~= seq![c]);
}

pub(crate) proof fn lemma_visible_blank(s: Seq<char>)
    requires
        is_blank(s),
    ensures
        visible(s) == Seq::<char>::empty(),
    decreases s.len(),
{
    if s.len() > 0 {
        assert(is_ws(s[s.len() - 1]));
        assert forall|i: int| 0 <= i < s.drop_last().len() implies is_ws(
            #[trigger] s.drop_last()[i],
        ) by {
            assert(s.drop_last()[i] == s[i]);
        }
        lemma_visible_blank(s.drop_last());
    }
}

proof fn lemma_first_diff_facts(a: Seq<char>, b: Seq<char>)
    ensures
        first_diff(a, b) <= a.len(),
        first_diff(a, b) <= b.len(),
        forall|j: int| 0 <= j < first_diff(a, b) ==> a[j] == b[j],
        first_diff(a, b) < a.len() && first_diff(a, b) < b.len() ==> a[first_diff(a, b) as int]
            != b[first_diff(a, b) as int],
    decreases a.len(),
{
    if a.len() > 0 && b.len() > 0 && a[0] == b[0] {
        let a1 = a.drop_first();
        let b1 = b.drop_first();
        lemma_first_diff_facts(a1, b1);
        assert forall|j: int| 0 <= j < first_diff(a, b) implies a[j] == b[j] by {
            if j > 0 {
                assert(a[j] == a1[j - 1] && b[j] == b1[j - 1]);
            }
        }
    }
}

/// `shrink` keeps a whitespace prefix of `p` that every non-blank line it saw
/// starts with.
proof fn lemma_shrink(p: Seq<char>, l: Seq<char>)
    requires
        is_blank(p),
    ensures
        shrink(p, l).is_prefix_of(p),
        !is_blank(l) ==> shrink(p, l).is_prefix_of(l),
{
    let d = first_diff(l, p);
    lemma_first_diff_facts(l, p);
    let r = shrink(p, l);
    if d < l.len() && d < p.len() {
        assert(r =~= p.subrange(0, r.len() as int));
        assert(r =~= l.subrange(0, r.len() as int));
    } else {
        assert(r =~= p.subrange(0, r.len() as int));
        if !is_blank(l) {
            if d == l.len() && d < p.len() {
                assert forall|i: int| 0 <= i < l.len() implies is_ws(#[trigger] l[i]) by {
                    assert(l[i] == p[i]);
                }
            }
            assert(d == p.len());
            assert(r =~= l.subrange(0, r.len() as int));
        }
    }
}

proof fn lemma_prefix_trans(a: Seq<char>, b: Seq<char>, c: Seq<char>)
    requires
        a.is_prefix_of(b),
        b.is_prefix_of(c),
    ensures
        a.is_prefix_of(c),
{
    assert forall|i: int| 0 <= i < a.len() implies a[i] == c.subrange(0, a.len() as int)[i] by {
        assert(a[i] == b.subrange(0, a.len() as int)[i]);
        assert(b[i] == c.subrange(0, b.len() as int)[i]);
    }
    assert(a =~= c.subrange(0, a.len() as int));
}

proof fn lemma_blank_prefix(a: Seq<char>, b: Seq<char>)
    requires
        a.is_prefix_of(b),
        is_blank(b),
    ensures
        is_blank(a),
{
    assert forall|i: int| 0 <= i < a.len() implies is_ws(#[trigger] a[i]) by {
        assert(a[i] == b.subrange(0, a.len() as int)[i]);
    }
}

proof fn lemma_prefix_fold(p: Seq<char>, ls: Seq<Seq<char>>)
    requires
        is_blank(p),
    ensures
        prefix_fold(p, ls).is_prefix_of(p),
        forall|i: int|
            0 <= i < ls.len() && !is_blank(#[trigger] ls[i]) ==> prefix_fold(p, ls).is_prefix_of(
                ls[i],
            ),
    decreases ls.len(),
{
    if ls.len() == 0 {
        assert(p =~= p.subrange(0, p.len() as int));
    } else {
        let q = prefix_fold(p, ls.drop_last());
        lemma_prefix_fold(p, ls.drop_last());
        lemma_blank_prefix(q, p);
        lemma_shrink(q, ls.last());
        let r = prefix_fold(p, ls);
        lemma_prefix_trans(r, q, p);
        assert forall|i: int| 0 <= i < ls.len() && !is_blank(#[trigger] ls[i]) implies r.is_prefix_of(
            ls[i],
        ) by {
            if i < ls.len() - 1 {
                assert(ls.drop_last()[i] == ls[i]);
                lemma_prefix_trans(r, q, ls[i]);
            }
        }
    }
}

/// The whitespace that `dedent` removes is a prefix of every line that is not
/// blank: no line loses anything but its indentation, and all lines that keep
/// text lose the same amount.
pub proof fn law_prefix_is_common(s: Seq<char>)
    ensures
        is_blank(common_prefix(lines_of(s))),
        forall|i: int|
            0 <= i < lines_of(s).len() && !is_blank(#[trigger] lines_of(s)[i])
                ==> common_prefix(lines_of(s)).is_prefix_of(lines_of(s)[i]),
{
    let ls = lines_of(s);
    let f = first_nonblank(ls) as int;
    lemma_first_nonblank_facts(ls);
    if f < ls.len() {
        let base = ls[f];
        let p0 = base.take(indent_len(base) as int);
        lemma_indent_len_facts(base);
        assert(is_blank(p0));
        assert(p0 =~= base.subrange(0, p0.len() as int));
        let tail = ls.skip(f + 1);
        lemma_prefix_fold(p0, tail);
        let p = common_prefix(ls);
        lemma_blank_prefix(p, p0);
        assert forall|i: int| 0 <= i < ls.len() && !is_blank(#[trigger] ls[i]) implies p.is_prefix_of(
            ls[i],
        ) by {
            if i == f {
                lemma_prefix_trans(p, p0, base);
            } else {
                assert(i > f);
                assert(tail[i - f - 1] == ls[i]);
            }
        }
    }
}

proof fn lemma_first_nonblank_facts(ls: Seq<Seq<char>>)
    ensures
        first_nonblank(ls) <= ls.len(),
        forall|j: int| 0 <= j < first_nonblank(ls) ==> is_blank(#[trigger] ls[j]),
        first_nonblank(ls) < ls.len() ==> !is_blank(ls[first_nonblank(ls) as int]),
    decreases ls.len(),
{
    if ls.len() > 0 && is_blank(ls[0]) {
        let t = ls.drop_first();
        lemma_first_nonblank_facts(t);
        assert forall|j: int| 0 <= j < first_nonblank(ls) implies is_blank(#[trigger] ls[j]) by {
            if j > 0 {
                assert(ls[j] == t[j - 1]);
            }
        }
    }
}

proof fn lemma_visible_split(s: Seq<char>)
    ensures
        visible(s) == visible_lines(split_acc(s).0) + visible(split_acc(s).1),
    decreases s.len(),
{
    if s.len() > 0 {
        let t = s.drop_last();
        lemma_visible_split(t);
        let (done, cur) = split_acc(t);
        let c = s.last();
        assert(s =~= t + seq![c]);
        lemma_visible_concat(t, seq![c]);
        lemma_visible_one(c);
        if c == '\n' {
            let nd = done.push(strip_cr(cur));
            assert(nd.drop_last() == done);
            assert(visible_lines(nd) == visible_lines(done) + visible(strip_cr(cur)));
            if cur.len() > 0 && cur.last() == '\r' {
                assert(cur =~= cur.drop_last() + seq!['\r']);
                lemma_visible_concat(cur.drop_last(), seq!['\r']);
                lemma_visible_one('\r');
                assert(visible(cur) =~= visible(cur.drop_last()));
            }
            assert(visible(strip_cr(cur)) == visible(cur));
            assert(visible(s) =~= visible(t));
            assert(visible(Seq::<char>::empty()) == Seq::<char>::empty());
            assert(visible_lines(split_acc(s).0) + visible(split_acc(s).1) =~= visible_lines(done)
                + visible(cur));
        } else {
            assert(cur.push(c) =~= cur + seq![c]);
            lemma_visible_concat(cur, seq![c]);
            assert(visible(s) =~= visible_lines(done) + visible(cur) + visible(seq![c]));
            assert(visible_lines(split_acc(s).0) + visible(split_acc(s).1) =~= visible_lines(done)
                + (visible(cur) + visible(seq![c])));
        }
    } else {
        assert(visible_lines(Seq::<Seq<char>>::empty()) == Seq::<char>::empty());
        assert(visible(Seq::<char>::empty()) == Seq::<char>::empty());
        assert(Seq::<char>::empty() + Seq::<char>::empty() =~= Seq::<char>::empty());
    }
}

proof fn lemma_visible_body(ls: Seq<Seq<char>>, p: Seq<char>)
    requires
        is_blank(p),
        forall|i: int| 0 <= i < ls.len() && !is_blank(#[trigger] ls[i]) ==> p.is_prefix_of(ls[i]),
    ensures
        visible(body(ls, p)) == visible_lines(ls),
    decreases ls.len(),
{
    if ls.len() > 0 {
        let l = ls.last();
        assert forall|i: int| 0 <= i < ls.drop_last().len() && !is_blank(
            #[trigger] ls.drop_last()[i],
        ) implies p.is_prefix_of(ls.drop_last()[i]) by {
            assert(ls.drop_last()[i] == ls[i]);
        }
        lemma_visible_body(ls.drop_last(), p);
        let o = out_line(l, p);
        lemma_visible_concat(body(ls.drop_last(), p), o.push('\n'));
        lemma_visible_concat(o, seq!['\n']);
        assert(o.push('\n') == o + seq!['\n']);
        lemma_visible_one('\n');
        if !is_blank(l) {
            assert(p.is_prefix_of(l));
            assert(l =~= p + l.skip(p.len() as int));
            lemma_visible_concat(p, l.skip(p.len() as int));
            lemma_visible_blank(p);
        } else {
            lemma_visible_blank(l);
        }
    }
}

/// `dedent` removes whitespace only: the characters that are not whitespace
/// come out all, in the same order.
pub proof fn law_dedent_keeps_text(s: Seq<char>)
    ensures
        visible(dedent_spec(s)) == visible(s),
{
    let ls = lines_of(s);
    let p = common_prefix(ls);
    law_prefix_is_common(s);
    lemma_visible_body(ls, p);
    lemma_visible_split(s);
    let (done, cur) = split_acc(s);
    if cur.len() > 0 {
        assert(done.push(cur).drop_last() == done);
    } else {
        assert(visible(cur) == Seq::<char>::empty());
        assert(visible_lines(done) + visible(cur) == visible_lines(done));
    }
    let r = body(ls, p);
    if ends_with_newline(r) && !ends_with_newline(s) {
        assert(r == r.drop_last().push('\n'));
        lemma_visible_concat(r.drop_last(), seq!['\n']);
        lemma_visible_one('\n');
    }
}

/// `a` and `b` hold the same character wherever both have one.
pub open spec fn agree(a: Seq<char>, b: Seq<char>) -> bool {
    forall|k: int| 0 <= k < a.len() && k < b.len() ==> a[k] == b[k]
}

/// Every blank line after the first non-blank line agrees with that line's
/// indentation (an empty line always does).
pub open spec fn blank_lines_agree(ls: Seq<Seq<char>>) -> bool {
    let f = first_nonblank(ls) as int;
    forall|j: int|
        f < j < ls.len() && is_blank(#[trigger] ls[j]) ==> agree(
            ls[j],
            ls[f].take(indent_len(ls[f]) as int),
        )
}

proof fn lemma_fold_longest(p0: Seq<char>, p: Seq<char>, ls: Seq<Seq<char>>, q: Seq<char>)
    requires
        p.is_prefix_of(p0),
        q.is_prefix_of(p),
        forall|i: int| 0 <= i < ls.len() && !is_blank(#[trigger] ls[i]) ==> q.is_prefix_of(ls[i]),
        forall|i: int| 0 <= i < ls.len() && is_blank(#[trigger] ls[i]) ==> agree(ls[i], p0),
    ensures
        q.is_prefix_of(prefix_fold(p, ls)),
        prefix_fold(p, ls).is_prefix_of(p0),
    decreases ls.len(),
{
    if ls.len() > 0 {
        let init = ls.drop_last();
        assert forall|i: int| 0 <= i < init.len() && !is_blank(#[trigger] init[i]) implies q.is_prefix_of(
            init[i],
        ) by {
            assert(init[i] == ls[i]);
        }
        assert forall|i: int| 0 <= i < init.len() && is_blank(#[trigger] init[i]) implies agree(
            init[i],
            p0,
        ) by {
            assert(init[i] == ls[i]);
        }
        lemma_fold_longest(p0, p, init, q);
        let cur = prefix_fold(p, init);
        let l = ls.last();
        assert(l == ls[ls.len() - 1]);
        let d = first_diff(l, cur);
        lemma_first_diff_facts(l, cur);
        let r = shrink(cur, l);
        if d < l.len() && d < cur.len() {
            if is_blank(l) {
                assert(agree(l, p0));
                assert(l[d as int] == p0[d as int]);
                assert(cur[d as int] == p0.subrange(0, cur.len() as int)[d as int]);
                assert(false);
            }
            assert(q.is_prefix_of(l));
            if q.len() > d {
                assert(q[d as int] == l.subrange(0, q.len() as int)[d as int]);
                assert(q[d as int] == cur.subrange(0, q.len() as int)[d as int]);
            }
            assert(q =~= r.subrange(0, q.len() as int));
            assert(r =~= cur.subrange(0, r.len() as int));
            lemma_prefix_trans(r, cur, p0);
        }
    }
}

/// `dedent` removes the longest whitespace that all non-blank lines start
/// with, when the text has a non-blank line and each blank line after the
/// first non-blank one agrees with that line's indentation.
pub proof fn law_prefix_is_longest(s: Seq<char>, q: Seq<char>)
    requires
        first_nonblank(lines_of(s)) < lines_of(s).len(),
        blank_lines_agree(lines_of(s)),
        is_blank(q),
        forall|i: int|
            0 <= i < lines_of(s).len() && !is_blank(#[trigger] lines_of(s)[i]) ==> q.is_prefix_of(
                lines_of(s)[i],
            ),
    ensures
        q.is_prefix_of(common_prefix(lines_of(s))),
{
    let ls = lines_of(s);
    let f = first_nonblank(ls) as int;
    lemma_first_nonblank_facts(ls);
    let base = ls[f];
    let p0 = base.take(indent_len(base) as int);
    lemma_indent_len_facts(base);
    assert(q.is_prefix_of(base));
    if q.len() > p0.len() {
        assert(q[p0.len() as int] == base.subrange(0, q.len() as int)[p0.len() as int]);
        assert(false);
    }
    assert(q =~= p0.subrange(0, q.len() as int));
    assert(p0 =~= p0.subrange(0, p0.len() as int));
    let tail = ls.skip(f + 1);
    assert forall|i: int| 0 <= i < tail.len() && !is_blank(#[trigger] tail[i]) implies q.is_prefix_of(
        tail[i],
    ) by {
        assert(tail[i] == ls[i + f + 1]);
    }
    assert forall|i: int| 0 <= i < tail.len() && is_blank(#[trigger] tail[i]) implies agree(
        tail[i],
        p0,
    ) by {
        assert(tail[i] == ls[i + f + 1]);
    }
    lemma_fold_longest(p0, p0, tail, q);
}

// ----------------------------------------------------------------------------
// Lines and the text they make
// ----------------------------------------------------------------------------

/// The whitespace of `s` is spaces and line breaks only.
pub open spec fn spaces_only(s: Seq<char>) -> bool {
    forall|i: int| 0 <= i < s.len() && is_ws(#[trigger] s[i]) ==> s[i] == ' ' || s[i] == '\n'
}

/// A line as `lines_of` yields one from a text whose whitespace is spaces and
/// line breaks: no line break, and spaces for whitespace.
pub open spec fn line_ok(l: Seq<char>) -> bool {
    forall|i: int| 0 <= i < l.len() ==> (#[trigger] l[i]) != '\n' && (is_ws(l[i]) ==> l[i] == ' ')
}

/// The lines `ms`, each followed by `'\n'`.
pub open spec fn unlines(ms: Seq<Seq<char>>) -> Seq<char>
    decreases ms.len(),
{
    if ms.len() == 0 {
        seq![]
    } else {
        unlines(ms.drop_last()) + ms.last().push('\n')
    }
}

/// The text of the lines `ms`: the last line break only when `nl`.
pub open spec fn rejoin(ms: Seq<Seq<char>>, nl: bool) -> Seq<char> {
    if ms.len() > 0 && !nl {
        unlines(ms).drop_last()
    } else {
        unlines(ms)
    }
}

/// What `dedent` makes of each line of `ls`.
pub open spec fn out_lines(ls: Seq<Seq<char>>, p: Seq<char>) -> Seq<Seq<char>> {
    ls.map_values(|l: Seq<char>| out_line(l, p))
}

proof fn lemma_body_unlines(ls: Seq<Seq<char>>, p: Seq<char>)
    ensures
        body(ls, p) == unlines(out_lines(ls, p)),
        ls.len() > 0 ==> ends_with_newline(body(ls, p)),
        ls.len() == 0 ==> body(ls, p).len() == 0,
    decreases ls.len(),
{
    if ls.len() > 0 {
        lemma_body_unlines(ls.drop_last(), p);
        assert(out_lines(ls, p).drop_last() =~= out_lines(ls.drop_last(), p));
        assert(out_lines(ls, p).last() == out_line(ls.last(), p));
    } else {
        assert(out_lines(ls, p) =~= Seq::<Seq<char>>::empty());
    }
}

/// `dedent` writes the lines it makes back into a text.
proof fn lemma_dedent_rejoin(s: Seq<char>)
    ensures
        dedent_spec(s) == rejoin(
            out_lines(lines_of(s), common_prefix(lines_of(s))),
            ends_with_newline(s),
        ),
{
    lemma_body_unlines(lines_of(s), common_prefix(lines_of(s)));
}

proof fn lemma_split_append(x: Seq<char>, y: Seq<char>)
    requires
        forall|i: int| 0 <= i < y.len() ==> y[i] != '\n',
    ensures
        split_acc(x + y) == (split_acc(x).0, split_acc(x).1 + y),
    decreases y.len(),
{
    if y.len() == 0 {
        assert(x + y == x);
        assert(split_acc(x).1 + y == split_acc(x).1);
    } else {
        lemma_split_append(x, y.drop_last());
        assert((x + y).drop_last() == x + y.drop_last());
        assert((x + y).last() == y.last());
        assert(y.last() == y[y.len() - 1]);
        assert(split_acc(x).1 + y.drop_last() + seq![y.last()] =~= split_acc(x).1 + y);
        assert((split_acc(x).1 + y.drop_last()).push(y.last()) =~= split_acc(x).1 + y);
    }
}

proof fn lemma_line_ok_no_cr(l: Seq<char>)
    requires
        line_ok(l),
    ensures
        strip_cr(l) == l,
{
    if l.len() > 0 {
        assert(is_ws('\r'));
        assert(l[l.len() - 1] != '\r' || !line_ok(l));
    }
}

/// Reading back the lines of a text made of lines.
proof fn lemma_split_unlines(ms: Seq<Seq<char>>)
    requires
        forall|i: int| 0 <= i < ms.len() ==> line_ok(#[trigger] ms[i]),
    ensures
        split_acc(unlines(ms)) == (ms, Seq::<char>::empty()),
    decreases ms.len(),
{
    if ms.len() > 0 {
        let init = ms.drop_last();
        let m = ms.last();
        assert(m == ms[ms.len() - 1]);
        assert forall|i: int| 0 <= i < init.len() implies line_ok(#[trigger] init[i]) by {
            assert(init[i] == ms[i]);
        }
        lemma_split_unlines(init);
        lemma_split_append(unlines(init), m);
        assert(Seq::<char>::empty() + m == m);
        let u = unlines(ms);
        assert(u == (unlines(init) + m).push('\n'));
        assert(u.drop_last() == unlines(init) + m);
        lemma_line_ok_no_cr(m);
        assert(init.push(m) == ms);
    } else {
        assert(unlines(ms) == Seq::<char>::empty());
        assert(ms == Seq::<Seq<char>>::empty());
    }
}

/// The lines of the text of `ms`, and whether it ends with a line break.
proof fn lemma_lines_rejoin(ms: Seq<Seq<char>>, nl: bool)
    requires
        forall|i: int| 0 <= i < ms.len() ==> line_ok(#[trigger] ms[i]),
    ensures
        nl || ms.len() == 0 || ms.last().len() > 0 ==> lines_of(rejoin(ms, nl)) == ms,
        !nl && ms.len() > 0 && ms.last().len() == 0 ==> lines_of(rejoin(ms, nl)) == ms.drop_last()
            && rejoin(ms, nl) == unlines(ms.drop_last()),
        ms.len() > 0 && (nl || ms.last().len() > 0) ==> (ends_with_newline(rejoin(ms, nl)) <==> nl),
        ms.len() == 0 ==> rejoin(ms, nl) == Seq::<char>::empty(),
{
    lemma_split_unlines(ms);
    if ms.len() > 0 {
        let init = ms.drop_last();
        let m = ms.last();
        assert(m == ms[ms.len() - 1]);
        assert forall|i: int| 0 <= i < init.len() implies line_ok(#[trigger] init[i]) by {
            assert(init[i] == ms[i]);
        }
        lemma_split_unlines(init);
        let u = unlines(ms);
        assert(u == (unlines(init) + m).push('\n'));
        if !nl {
            assert(rejoin(ms, nl) == unlines(init) + m);
            lemma_split_append(unlines(init), m);
            assert(Seq::<char>::empty() + m == m);
            if m.len() > 0 {
                assert(init.push(m) == ms);
                assert((unlines(init) + m).last() == m[m.len() - 1]);
            } else {
                assert(unlines(init) + m == unlines(init));
            }
        }
    } else {
        assert(unlines(ms) == Seq::<char>::empty());
    }
}

proof fn lemma_split_spaces(s: Seq<char>)
    requires
        spaces_only(s),
    ensures
        forall|i: int| 0 <= i < split_acc(s).0.len() ==> line_ok(#[trigger] split_acc(s).0[i]),
        line_ok(split_acc(s).1),
        s == unlines(split_acc(s).0) + split_acc(s).1,
    decreases s.len(),
{
    if s.len() == 0 {
        assert(unlines(Seq::<Seq<char>>::empty()) + Seq::<char>::empty() == s);
    } else {
        let t = s.drop_last();
        assert forall|i: int| 0 <= i < t.len() && is_ws(#[trigger] t[i]) implies t[i] == ' '
            || t[i] == '\n' by {
            assert(t[i] == s[i]);
        }
        lemma_split_spaces(t);
        let (d, cur) = split_acc(t);
        let c = s.last();
        assert(c == s[s.len() - 1]);
        assert(s == t.push(c));
        if c == '\n' {
            lemma_line_ok_no_cr(cur);
            let nd = d.push(cur);
            assert(nd.drop_last() == d);
            assert(nd.last() == cur);
            assert forall|i: int| 0 <= i < nd.len() implies line_ok(#[trigger] nd[i]) by {
                if i < d.len() {
                    assert(nd[i] == d[i]);
                }
            }
            assert(unlines(nd) + Seq::<char>::empty() =~= s);
        } else {
            assert(line_ok(cur.push(c))) by {
                assert forall|i: int| 0 <= i < cur.push(c).len() implies (#[trigger] cur.push(
                    c,
                )[i]) != '\n' && (is_ws(cur.push(c)[i]) ==> cur.push(c)[i] == ' ') by {
                    if i < cur.len() {
                        assert(cur.push(c)[i] == cur[i]);
                    }
                }
            }
            assert(unlines(d) + cur.push(c) =~= s);
        }
    }
}

/// The lines of a text whose whitespace is spaces and line breaks, and how
/// the text is made of them.
proof fn lemma_lines_spaces(s: Seq<char>)
    requires
        spaces_only(s),
    ensures
        forall|i: int| 0 <= i < lines_of(s).len() ==> line_ok(#[trigger] lines_of(s)[i]),
        rejoin(lines_of(s), ends_with_newline(s)) == s,
        ends_with_newline(s) ==> lines_of(s).len() > 0,
        !ends_with_newline(s) && lines_of(s).len() > 0 ==> lines_of(s).last().len() > 0,
{
    lemma_split_spaces(s);
    let (d, cur) = split_acc(s);
    if cur.len() == 0 {
        assert(s == unlines(d));
        if d.len() > 0 {
            assert(unlines(d) == unlines(d.drop_last()) + d.last().push('\n'));
            assert(ends_with_newline(s));
        } else {
            assert(s.len() == 0);
        }
    } else {
        let ls = d.push(cur);
        assert(ls.drop_last() == d);
        assert(ls.last() == cur);
        assert forall|i: int| 0 <= i < ls.len() implies line_ok(#[trigger] ls[i]) by {
            if i < d.len() {
                assert(ls[i] == d[i]);
            }
        }
        assert(s.last() == cur[cur.len() - 1]);
        assert(unlines(ls) == (unlines(d) + cur).push('\n'));
        assert(unlines(ls).drop_last() == unlines(d) + cur);
    }
}

/// What `dedent` makes of lines whose whitespace is spaces: lines of the same
/// kind, blank ones empty, and, when a line is not blank, one that starts with
/// a character that is not whitespace.
proof fn lemma_out_lines_spaces(s: Seq<char>)
    requires
        spaces_only(s),
    ensures
        ({
            let ls = lines_of(s);
            let ms = out_lines(ls, common_prefix(ls));
            &&& ms.len() == ls.len()
            &&& forall|i: int| 0 <= i < ms.len() ==> line_ok(#[trigger] ms[i])
            &&& forall|i: int| 0 <= i < ms.len() && is_blank(#[trigger] ms[i]) ==> ms[i].len() == 0
            &&& (exists|i: int| 0 <= i < ms.len() && !is_blank(#[trigger] ms[i])) ==> exists|w: int|
                0 <= w < ms.len() && #[trigger] ms[w].len() > 0 && !is_ws(ms[w][0])
        }),
{
    let ls = lines_of(s);
    let p = common_prefix(ls);
    let ms = out_lines(ls, p);
    lemma_lines_spaces(s);
    law_prefix_is_common(s);
    assert forall|i: int| 0 <= i < ms.len() implies line_ok(#[trigger] ms[i]) && (is_blank(ms[i])
        ==> ms[i].len() == 0) && (!is_blank(ms[i]) ==> !is_blank(ls[i])) by {
        let l = ls[i];
        assert(ms[i] == out_line(l, p));
        assert(line_ok(l));
        if p.is_prefix_of(l) && !is_blank(l) {
            let m = l.skip(p.len() as int);
            assert forall|j: int| 0 <= j < m.len() implies (#[trigger] m[j]) != '\n' && (is_ws(m[j])
                ==> m[j] == ' ') by {
                assert(m[j] == l[j + p.len()]);
            }
            let k = choose|k: int| 0 <= k < l.len() && !is_ws(#[trigger] l[k]);
            if k < p.len() {
                assert(l[k] == l.subrange(0, p.len() as int)[k]);
            }
            assert(m[k - p.len()] == l[k]);
        }
    }
    if exists|i: int| 0 <= i < ms.len() && !is_blank(#[trigger] ms[i]) {
        let i0 = choose|i: int| 0 <= i < ms.len() && !is_blank(#[trigger] ms[i]);
        assert(!is_blank(ls[i0]));
        lemma_first_nonblank_facts(ls);
        let f = first_nonblank(ls) as int;
        let base = ls[f];
        lemma_indent_len_facts(base);
        let q = p.push(' ');
        assert(is_blank(q)) by {
            assert forall|j: int| 0 <= j < q.len() implies is_ws(#[trigger] q[j]) by {
                if j < p.len() {
                    assert(q[j] == p[j]);
                }
            }
        }
        assert(blank_lines_agree(ls)) by {
            let p0 = base.take(indent_len(base) as int);
            assert forall|j: int| f < j < ls.len() && is_blank(#[trigger] ls[j]) implies agree(
                ls[j],
                p0,
            ) by {
                assert(line_ok(ls[j]) && line_ok(base));
                assert forall|k: int| 0 <= k < ls[j].len() && k < p0.len() implies ls[j][k]
                    == p0[k] by {
                    assert(is_ws(ls[j][k]));
                    assert(p0[k] == base[k]);
                    assert(is_ws(base[k]));
                }
            }
        }
        if forall|i: int| 0 <= i < ls.len() && !is_blank(#[trigger] ls[i]) ==> q.is_prefix_of(ls[i]) {
            law_prefix_is_longest(s, q);
            assert(false);
        }
        let w = choose|i: int| 0 <= i < ls.len() && !is_blank(#[trigger] ls[i]) && !q.is_prefix_of(
            ls[i],
        );
        let l = ls[w];
        assert(p.is_prefix_of(l));
        assert(line_ok(l));
        if l.len() == p.len() {
            assert(l =~= l.subrange(0, p.len() as int));
            assert(false);
        }
        if l[p.len() as int] == ' ' {
            assert(q =~= l.subrange(0, q.len() as int));
            assert(false);
        }
        assert(!is_ws(l[p.len() as int]));
        let m = ms[w];
        assert(m == l.skip(p.len() as int));
        assert(m[0] == l[p.len() as int]);
    }
}

/// `dedent` is idempotent on text whose whitespace is spaces and line breaks:
/// once the common indentation is gone, there is none left to remove.
pub proof fn law_dedent_idempotent(s: Seq<char>)
    requires
        spaces_only(s),
    ensures
        dedent_spec(dedent_spec(s)) == dedent_spec(s),
{
    let ls = lines_of(s);
    let ms = out_lines(ls, common_prefix(ls));
    let e = ends_with_newline(s);
    lemma_out_lines_spaces(s);
    lemma_dedent_rejoin(s);
    let t = dedent_spec(s);
    assert(t == rejoin(ms, e));
    lemma_lines_rejoin(ms, e);
    let lt = lines_of(t);
    assert(forall|i: int| 0 <= i < lt.len() ==> lt[i] == ms[i]) by {
        if !e && ms.len() > 0 && ms.last().len() == 0 {
            assert forall|i: int| 0 <= i < lt.len() implies lt[i] == ms[i] by {
                assert(ms.drop_last()[i] == ms[i]);
            }
        }
    }
    assert(lt.len() <= ms.len());
    // Nothing is left to remove.
    let p2 = common_prefix(lt);
    assert(p2.len() == 0) by {
        lemma_first_nonblank_facts(lt);
        if first_nonblank(lt) < lt.len() {
            let i0 = first_nonblank(lt) as int;
            assert(!is_blank(ms[i0]));
            let w = choose|w: int| 0 <= w < ms.len() && #[trigger] ms[w].len() > 0 && !is_ws(ms[w][0]);
            if !e && ms.len() > 0 && ms.last().len() == 0 {
                assert(w != ms.len() - 1);
            }
            assert(w < lt.len());
            assert(lt[w] == ms[w]);
            law_prefix_is_common(t);
            assert(!is_blank(lt[w])) by {
                assert(!is_ws(lt[w][0]));
            }
            if p2.len() > 0 {
                assert(p2[0] == lt[w].subrange(0, p2.len() as int)[0]);
            }
        }
    }
    assert(out_lines(lt, p2) =~= lt) by {
        assert forall|i: int| 0 <= i < lt.len() implies out_lines(lt, p2)[i] == lt[i] by {
            assert(p2 =~= lt[i].subrange(0, 0));
            assert(lt[i].skip(0) == lt[i]);
        }
    }
    lemma_dedent_rejoin(t);
    if ms.len() > 0 && !e && ms.last().len() == 0 {
        let init = ms.drop_last();
        assert forall|i: int| 0 <= i < init.len() implies line_ok(#[trigger] init[i]) by {
            assert(init[i] == ms[i]);
        }
        lemma_lines_rejoin(init, true);
    }
}

/// `k` spaces.
pub open spec fn spaces(k: nat) -> Seq<char> {
    Seq::new(k, |_i: int| ' ')
}

/// Line `l` with `k` spaces put before it, when it is not blank.
pub open spec fn shift_line(l: Seq<char>, k: nat) -> Seq<char> {
    if is_blank(l) {
        l
    } else {
        spaces(k) + l
    }
}

/// `s` with `k` spaces put at the start of each line that is not blank.
pub open spec fn indent_lines(s: Seq<char>, k: nat) -> Seq<char> {
    rejoin(lines_of(s).map_values(|l: Seq<char>| shift_line(l, k)), ends_with_newline(s))
}

proof fn lemma_shift_line(l: Seq<char>, k: nat)
    requires
        line_ok(l),
    ensures
        line_ok(shift_line(l, k)),
        is_blank(shift_line(l, k)) == is_blank(l),
        !is_blank(l) ==> indent_len(shift_line(l, k)) == k + indent_len(l),
{
    let sl = shift_line(l, k);
    if !is_blank(l) {
        let sp = spaces(k);
        assert(sl == sp + l);
        assert(is_ws(' '));
        assert forall|i: int| 0 <= i < sl.len() implies (#[trigger] sl[i]) != '\n' && (is_ws(sl[i])
            ==> sl[i] == ' ') by {
            if i >= k {
                assert(sl[i] == l[i - k]);
            }
        }
        let j = choose|j: int| 0 <= j < l.len() && !is_ws(#[trigger] l[j]);
        assert(sl[j + k] == l[j]);
        lemma_indent_len_facts(l);
        let n = indent_len(l) as int;
        assert forall|i: int| 0 <= i < k + n implies is_ws(#[trigger] sl[i]) by {
            if i >= k {
                assert(sl[i] == l[i - k]);
            }
        }
        if k + n < sl.len() {
            assert(sl[k + n] == l[n]);
        }
        lemma_indent_len(sl, k + n);
    }
}

proof fn lemma_first_diff_spaces(a: Seq<char>, b: Seq<char>)
    requires
        forall|i: int| 0 <= i < a.len() ==> a[i] == ' ',
        forall|i: int| 0 <= i < b.len() ==> b[i] == ' ',
    ensures
        first_diff(a, b) == a.len() || first_diff(a, b) == b.len(),
{
    lemma_first_diff_facts(a, b);
}

proof fn lemma_first_diff_shift(a: Seq<char>, b: Seq<char>, k: nat)
    ensures
        first_diff(spaces(k) + a, spaces(k) + b) == k + first_diff(a, b),
{
    let sa = spaces(k) + a;
    let sb = spaces(k) + b;
    let d = first_diff(a, b);
    lemma_first_diff_facts(a, b);
    assert forall|j: int| 0 <= j < k + d implies sa[j] == sb[j] by {
        if j >= k {
            assert(sa[j] == a[j - k] && sb[j] == b[j - k]);
        }
    }
    if k + d < sa.len() && k + d < sb.len() {
        assert(sa[(k + d) as int] == a[d as int] && sb[(k + d) as int] == b[d as int]);
    }
    lemma_first_diff(sa, sb, (k + d) as int);
}

proof fn lemma_fold_shift(p: Seq<char>, ts: Seq<Seq<char>>, k: nat)
    requires
        forall|i: int| 0 <= i < p.len() ==> p[i] == ' ',
        forall|i: int| 0 <= i < ts.len() ==> line_ok(#[trigger] ts[i]),
    ensures
        prefix_fold(spaces(k) + p, ts.map_values(|l: Seq<char>| shift_line(l, k))) == spaces(k)
            + prefix_fold(p, ts),
        forall|i: int| 0 <= i < prefix_fold(p, ts).len() ==> prefix_fold(p, ts)[i] == ' ',
    decreases ts.len(),
{
    let sp = spaces(k);
    let sh = ts.map_values(|l: Seq<char>| shift_line(l, k));
    if ts.len() == 0 {
        assert(sh =~= Seq::<Seq<char>>::empty());
    } else {
        let init = ts.drop_last();
        let l = ts.last();
        assert(l == ts[ts.len() - 1]);
        assert forall|i: int| 0 <= i < init.len() implies line_ok(#[trigger] init[i]) by {
            assert(init[i] == ts[i]);
        }
        lemma_fold_shift(p, init, k);
        assert(sh.drop_last() =~= init.map_values(|l: Seq<char>| shift_line(l, k)));
        assert(sh.last() == shift_line(l, k));
        let q = prefix_fold(p, init);
        let sq = sp + q;
        let d = first_diff(l, q);
        lemma_first_diff_facts(l, q);
        let r = shrink(q, l);
        assert(r =~= q.take(r.len() as int));
        assert forall|i: int| 0 <= i < r.len() implies r[i] == ' ' by {
            assert(r[i] == q[i]);
        }
        if is_blank(l) {
            assert forall|i: int| 0 <= i < l.len() implies l[i] == ' ' by {
                assert(is_ws(l[i]));
            }
            assert forall|i: int| 0 <= i < sq.len() implies sq[i] == ' ' by {
                if i >= k {
                    assert(sq[i] == q[i - k]);
                }
            }
            lemma_first_diff_spaces(l, sq);
            lemma_first_diff_spaces(l, q);
            assert(shrink(sq, l) == sq);
            assert(r == q);
        } else {
            lemma_first_diff_shift(l, q, k);
            assert(shift_line(l, k) == sp + l);
            if d < l.len() && d < q.len() {
                assert(sq.take((k + d) as int) =~= sp + q.take(d as int));
            }
        }
    }
}

/// Indenting every non-blank line of a text by the same number of spaces does
/// not change what `dedent` gives, for text whose whitespace is spaces and
/// line breaks (`indent_lines(s, 0)` is `s` itself).
pub proof fn law_dedent_ignores_added_indent(s: Seq<char>, k: nat)
    requires
        spaces_only(s),
    ensures
        indent_lines(s, 0) == s,
        dedent_spec(indent_lines(s, k)) == dedent_spec(s),
{
    let ls = lines_of(s);
    let e = ends_with_newline(s);
    let sp = spaces(k);
    lemma_lines_spaces(s);
    assert(ls.map_values(|l: Seq<char>| shift_line(l, 0)) =~= ls) by {
        assert forall|i: int| 0 <= i < ls.len() implies shift_line(ls[i], 0) == ls[i] by {
            assert(spaces(0) + ls[i] =~= ls[i]);
        }
    }
    let sh = ls.map_values(|l: Seq<char>| shift_line(l, k));
    assert forall|i: int| 0 <= i < sh.len() implies line_ok(#[trigger] sh[i]) && is_blank(sh[i])
        == is_blank(ls[i]) by {
        lemma_shift_line(ls[i], k);
    }
    let s2 = indent_lines(s, k);
    if !e && ls.len() > 0 {
        lemma_shift_line(ls.last(), k);
        assert(sh.last() == shift_line(ls.last(), k));
        assert(sh.last().len() > 0) by {
            if !is_blank(ls.last()) {
                assert(shift_line(ls.last(), k).len() == k + ls.last().len());
            }
        }
    }
    lemma_lines_rejoin(sh, e);
    assert(lines_of(s2) == sh);
    assert(ends_with_newline(s2) == e);
    lemma_dedent_rejoin(s);
    lemma_dedent_rejoin(s2);
    let p = common_prefix(ls);
    let p2 = common_prefix(sh);
    law_prefix_is_common(s);
    assert(out_lines(sh, p2) =~= out_lines(ls, p)) by {
        lemma_first_nonblank_facts(ls);
        let f = first_nonblank(ls) as int;
        assert forall|j: int| 0 <= j < f implies is_blank(#[trigger] sh[j]) by {}
        lemma_first_nonblank(sh, f);
        if f < ls.len() {
            let base = ls[f];
            lemma_shift_line(base, k);
            lemma_indent_len_facts(base);
            let p0 = base.take(indent_len(base) as int);
            assert forall|i: int| 0 <= i < p0.len() implies p0[i] == ' ' by {
                assert(p0[i] == base[i]);
                assert(is_ws(base[i]));
            }
            assert(sh[f].take(indent_len(sh[f]) as int) =~= sp + p0);
            let tail = ls.skip(f + 1);
            assert forall|i: int| 0 <= i < tail.len() implies line_ok(#[trigger] tail[i]) by {
                assert(tail[i] == ls[i + f + 1]);
            }
            lemma_fold_shift(p0, tail, k);
            assert(sh.skip(f + 1) =~= tail.map_values(|l: Seq<char>| shift_line(l, k)));
            assert(p2 == sp + p);
            assert forall|i: int| 0 <= i < ls.len() implies out_line(sh[i], p2) == out_line(
                ls[i],
                p,
            ) by {
                if !is_blank(ls[i]) {
                    let l = ls[i];
                    assert(sh[i] == sp + l);
                    assert(p.is_prefix_of(l));
                    assert(p2 =~= (sp + l).subrange(0, p2.len() as int));
                    assert((sp + l).skip(p2.len() as int) =~= l.skip(p.len() as int));
                }
            }
        } else {
            assert forall|i: int| 0 <= i < ls.len() implies out_line(sh[i], p2) == out_line(
                ls[i],
                p,
            ) by {
                assert(is_blank(ls[i]));
            }
        }
    }
}

// ----------------------------------------------------------------------------
// Executable parts
// ----------------------------------------------------------------------------

/// The character sequences of a vector of lines.
pub open spec fn views(v: Seq<Vec<char>>) -> Seq<Seq<char>> {
    v.map_values(|l: Vec<char>| l@)
}

/// The lines of `s` (see `lines_of`).
fn split_lines(s: &Vec<char>) -> (r: Vec<Vec<char>>)
    ensures
        views(r@) == lines_of(s@),
{
    let mut done: Vec<Vec<char>> = Vec::new();
    let mut cur: Vec<char> = Vec::new();
    let n = s.len();
    for i in 0..n
        invariant
            n == s.len(),
            (views(done@), cur@) == split_acc(s@.take(i as int)),
    {
        proof {
            lemma_split_acc_step(s@, i as int);
        }
        let c = s[i];
        if c == '\n' {
            let ghost old_cur = cur@;
            if cur.len() > 0 && cur[cur.len() - 1] == '\r' {
                cur.pop();
            }
            assert(cur@ == strip_cr(old_cur));
            let ghost old_done = done@;
            let line = cur;
            done.push(line);
            cur = Vec::new();
            assert(views(done@) =~= views(old_done).push(strip_cr(old_cur)));
        } else {
            cur.push(c);
        }
    }
    assert(s@.take(n as int) == s@);
    if cur.len() > 0 {
        let ghost old_done = done@;
        let ghost old_cur = cur@;
        done.push(cur);
        assert(views(done@) =~= views(old_done).push(old_cur));
    }
    done
}

/// The number of whitespace characters that `l` starts with.
fn indent_of(l: &Vec<char>) -> (k: usize)
    ensures
        k == indent_len(l@),
        k <= l.len(),
        is_blank(l@) <==> k == l.len(),
{
    let mut k: usize = 0;
    while k < l.len() && is_whitespace(l[k])
        invariant
            k <= l.len(),
            forall|j: int| 0 <= j < k ==> is_ws(#[trigger] l@[j]),
        decreases l.len() - k,
    {
        k += 1;
    }
    proof {
        lemma_indent_len(l@, k as int);
        lemma_indent_len_facts(l@);
    }
    k
}

/// Where line `l` first differs from `base[..plen]`.
fn diff_from(l: &Vec<char>, base: &Vec<char>, plen: usize) -> (d: usize)
    requires
        plen <= base.len(),
    ensures
        d == first_diff(l@, base@.take(plen as int)),
{
    let ghost p = base@.take(plen as int);
    let mut k: usize = 0;
    while k < l.len() && k < plen && l[k] == base[k]
        invariant
            k <= l.len(),
            k <= plen <= base.len(),
            p == base@.take(plen as int),
            forall|j: int| 0 <= j < k ==> l@[j] == #[trigger] p[j],
        decreases l.len() - k,
    {
        k += 1;
    }
    proof {
        lemma_first_diff(l@, p, k as int);
    }
    k
}

/// Removes common leading whitespace from each line.
///
/// The whitespace removed is the indentation of the first line that is not
/// blank, cut down where a later line differs from it. A blank line becomes
/// empty; a line ended by `"\r\n"` ends with `'\n'` in the result; the result
/// ends with `'\n'` only where `s` does.
pub fn dedent(s: &str) -> (r: String)
    ensures
        r@ == dedent_spec(s@),
{
    let cs = chars_of(s);
    let ls = split_lines(&cs);
    let ghost gls = lines_of(s@);
    let n = ls.len();
    assert(forall|j: int| 0 <= j < n ==> (#[trigger] ls@[j])@ == gls[j]);
    // The first line that is not blank gives the prefix.
    let mut f: usize = 0;
    let mut plen: usize = 0;
    while f < n
        invariant_except_break
            n == ls.len(),
            gls.len() == n,
            forall|j: int| 0 <= j < n ==> (#[trigger] ls@[j])@ == gls[j],
            forall|j: int| 0 <= j < f ==> is_blank(#[trigger] gls[j]),
        invariant
            f <= n,
        ensures
            f <= n,
            forall|j: int| 0 <= j < f ==> is_blank(#[trigger] gls[j]),
            f == n || (!is_blank(gls[f as int]) && plen == indent_len(gls[f as int])),
        decreases n - f,
    {
        let k = indent_of(&ls[f]);
        if k < ls[f].len() {
            plen = k;
            break;
        }
        f += 1;
    }
    proof {
        lemma_first_nonblank(gls, f as int);
    }
    // Every later line may cut the prefix down.
    if f < n {
        let ghost base = gls[f as int];
        proof {
            lemma_indent_len_facts(base);
            assert(gls.skip(f + 1).take(0) == Seq::<Seq<char>>::empty());
        }
        let mut j: usize = f + 1;
        while j < n
            invariant
                f < j <= n,
                n == ls.len(),
                gls.len() == n,
                base == gls[f as int],
                forall|i: int| 0 <= i < n ==> (#[trigger] ls@[i])@ == gls[i],
                plen <= base.len(),
                base.take(plen as int) == prefix_fold(
                    base.take(indent_len(base) as int),
                    gls.skip(f + 1).take(j - (f + 1)),
                ),
            decreases n - j,
        {
            let d = diff_from(&ls[j], &ls[f], plen);
            let ghost old_p = base.take(plen as int);
            if d < ls[j].len() && d < plen {
                plen = d;
            }
            proof {
                let ts = gls.skip(f + 1).take(j + 1 - (f + 1));
                assert(ts.drop_last() == gls.skip(f + 1).take(j - (f + 1)));
                assert(ts.last() == gls[j as int]);
                assert(base.take(plen as int) == shrink(old_p, gls[j as int]));
            }
            j += 1;
        }
        proof {
            assert(gls.skip(f + 1).take(n - (f + 1)) == gls.skip(f + 1));
        }
    }
    let ghost p = common_prefix(gls);
    assert(p == if f < n {
        gls[f as int].take(plen as int)
    } else {
        seq![]
    });
    // Build the result.
    let mut out: Vec<char> = Vec::new();
    for i in 0..n
        invariant
            n == ls.len(),
            gls.len() == n,
            forall|j: int| 0 <= j < n ==> (#[trigger] ls@[j])@ == gls[j],
            p.len() == if f < n { plen as nat } else { 0 },
            f < n ==> p == gls[f as int].take(plen as int),
            f < n ==> plen <= gls[f as int].len(),
            out@ == body(gls.take(i as int), p),
    {
        let line = &ls[i];
        let ghost gl = gls[i as int];
        let k = indent_of(line);
        let plen_here: usize = if f < n { plen } else { 0 };
        let mut starts = plen_here <= line.len();
        let mut q: usize = 0;
        while starts && q < plen_here
            invariant
                q <= plen_here,
                starts ==> plen_here <= line.len(),
                f < n ==> plen <= gls[f as int].len(),
                plen_here == p.len(),
                f < n ==> p == gls[f as int].take(plen as int),
                f >= n ==> plen_here == 0,
                line@ == gl,
                n == ls.len(),
                f < n ==> ls@[f as int]@ == gls[f as int],
                starts ==> forall|j: int| 0 <= j < q ==> gl[j] == #[trigger] p[j],
                !starts ==> !p.is_prefix_of(gl),
            decreases plen_here - q,
        {
            if line[q] != ls[f][q] {
                assert(gl[q as int] != p[q as int]);
                assert(!p.is_prefix_of(gl)) by {
                    if p.is_prefix_of(gl) {
                        assert(gl.subrange(0, p.len() as int)[q as int] == gl[q as int]);
                    }
                }
                starts = false;
            }
            q += 1;
        }
        assert(starts ==> gl.take(p.len() as int) == p);
        if starts && k < line.len() {
            let mut m: usize = plen_here;
            while m < line.len()
                invariant
                    plen_here <= m <= line.len(),
                    line@ == gl,
                    out@ == body(gls.take(i as int), p) + gl.subrange(plen_here as int, m as int),
                decreases line.len() - m,
            {
                out.push(line[m]);
                assert(gl.subrange(plen_here as int, m + 1) == gl.subrange(
                    plen_here as int,
                    m as int,
                ).push(gl[m as int]));
                m += 1;
            }
            assert(gl.subrange(plen_here as int, gl.len() as int) == gl.skip(plen_here as int));
        }
        out.push('\n');
        proof {
            assert(gls.take(i + 1).drop_last() == gls.take(i as int));
            assert(gls.take(i + 1).last() == gl);
        }
    }
    assert(gls.take(n as int) == gls);
    if out.len() > 0 && out[out.len() - 1] == '\n' && !(cs.len() > 0 && cs[cs.len() - 1]
        == '\n') {
        out.pop();
    }
    string_of(&out)
}

} // verus!
