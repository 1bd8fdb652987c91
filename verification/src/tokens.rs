//! A plain model of Rust tokens as a macro receives them: leaves (identifiers,
//! punctuation, literals, lifetimes) and delimited groups, each with the
//! source position of its span. The text of a token list is laid out from
//! those positions.

use vstd::prelude::*;

use crate::text::string_of;

verus! {

/// A position in the source: line (counted from 1) and column (counted from 0).
#[derive(Clone, Copy, Debug, PartialEq, Eq)]
pub struct Pos {
    pub line: usize,
    pub column: usize,
}

/// Where a token starts and where it ends.
#[derive(Clone, Copy, Debug, PartialEq, Eq)]
pub struct Span {
    pub start: Pos,
    pub end: Pos,
}

/// The delimiters of a group.
#[derive(Clone, Copy, Debug, PartialEq, Eq)]
pub enum Delim {
    Parenthesis,
    Brace,
    Bracket,
    /// An invisible delimiter, written as `'\u{2205}'` (empty set).
    NoDelim,
}

/// A token tree.
#[derive(Debug)]
pub enum RawTok {
    /// An identifier, punctuation, literal or lifetime, with its text.
    Leaf { text: String, span: Span },
    /// A delimited group: `span` covers it from its opening to its closing
    /// delimiter; `first` is the span of the first token inside (or of the
    /// closing delimiter when the group is empty).
    Group { delim: Delim, span: Span, first: Span, inner: Vec<RawTok> },
}

impl RawTok {
    pub open spec fn span_of(self) -> Span {
        match self {
            RawTok::Leaf { span, .. } => span,
            RawTok::Group { span, .. } => span,
        }
    }

    /// The span of the token.
    pub fn span(&self) -> (r: Span)
        ensures
            r == self.span_of(),
    {
        match self {
            RawTok::Leaf { span, .. } => *span,
            RawTok::Group { span, .. } => *span,
        }
    }
}

pub open spec fn open_char(d: Delim) -> char {
    match d {
        Delim::Parenthesis => '(',
        Delim::Brace => '{',
        Delim::Bracket => '[',
        Delim::NoDelim => '\u{2205}',
    }
}

pub open spec fn close_char(d: Delim) -> char {
    match d {
        Delim::Parenthesis => ')',
        Delim::Brace => '}',
        Delim::Bracket => ']',
        Delim::NoDelim => '\u{2205}',
    }
}

impl Delim {
    /// The opening delimiter.
    pub fn open(&self) -> (r: char)
        ensures
            r == open_char(*self),
    {
        match self {
            Delim::Parenthesis => '(',
            Delim::Brace => '{',
            Delim::Bracket => '[',
            Delim::NoDelim => '\u{2205}',
        }
    }

    /// The closing delimiter.
    pub fn close(&self) -> (r: char)
        ensures
            r == close_char(*self),
    {
        match self {
            Delim::Parenthesis => ')',
            Delim::Brace => '}',
            Delim::Bracket => ']',
            Delim::NoDelim => '\u{2205}',
        }
    }
}

/// `a - b`, or 0 when `b > a`.
pub open spec fn sat_sub(a: usize, b: usize) -> nat {
    if a >= b {
        (a - b) as nat
    } else {
        0
    }
}

/// Lines and columns from the end of `b` to the start of `a`.
pub open spec fn span_gap(a: Span, b: Span) -> (nat, nat) {
    (sat_sub(a.start.line, b.end.line), sat_sub(a.start.column, b.end.column))
}

/// The distance from the end of `b` to the start of `a`, in lines and in
/// columns, each 0 where `b` ends after `a` starts.
pub fn sub_span(a: Span, b: Span) -> (r: (usize, usize))
    ensures
        (r.0 as nat, r.1 as nat) == span_gap(a, b),
{
    (a.start.line.saturating_sub(b.end.line), a.start.column.saturating_sub(b.end.column))
}

/// The distance from the start of `b` to the start of `a`.
pub fn sub_start_span(a: Span, b: Span) -> (r: (usize, usize))
    ensures
        r.0 as nat == sat_sub(a.start.line, b.start.line),
        r.1 as nat == sat_sub(a.start.column, b.start.column),
{
    (a.start.line.saturating_sub(b.start.line), a.start.column.saturating_sub(b.start.column))
}

/// The distance from the end of `b` to the end of `a`.
pub fn sub_end_span(a: Span, b: Span) -> (r: (usize, usize))
    ensures
        r.0 as nat == sat_sub(a.end.line, b.end.line),
        r.1 as nat == sat_sub(a.end.column, b.end.column),
{
    (a.end.line.saturating_sub(b.end.line), a.end.column.saturating_sub(b.end.column))
}

/// `n` copies of `c`.
pub open spec fn repeat_char(c: char, n: nat) -> Seq<char> {
    Seq::new(n, |_i: int| c)
}

/// Appends `n` copies of `c` to `out`.
pub fn push_repeat(out: &mut Vec<char>, c: char, n: usize)
    ensures
        final(out)@ == old(out)@ + repeat_char(c, n as nat),
{
    let ghost start = out@;
    for i in 0..n
        invariant
            out@ == start + repeat_char(c, i as nat),
    {
        out.push(c);
        assert(start + repeat_char(c, (i + 1) as nat) =~= start + repeat_char(c, i as nat) + seq![
            c,
        ]);
    }
}

/// The white space written before a token at `span` when the token before it
/// was at `prev`: a line break per line between them, then a space per column.
pub open spec fn raw_gap(span: Span, prev: Option<Span>) -> Seq<char> {
    match prev {
        None => seq![],
        Some(p) => repeat_char('\n', span_gap(span, p).0) + repeat_char(' ', span_gap(span, p).1),
    }
}

/// The text of one token: a leaf's text, or a group's tokens between its
/// delimiters.
pub open spec fn tok_text(t: RawTok) -> Seq<char>
    decreases t,
{
    match t {
        RawTok::Leaf { text, .. } => text@,
        RawTok::Group { delim, inner, .. } => seq![open_char(delim)] + layout(inner@, None) + seq![
            close_char(delim),
        ],
    }
}

/// The text of the tokens `toks`, laid out by their positions; `prev` is the
/// span of the token written before them, if any.
pub open spec fn layout(toks: Seq<RawTok>, prev: Option<Span>) -> Seq<char>
    decreases toks,
{
    if toks.len() == 0 {
        seq![]
    } else {
        raw_gap(toks[0].span_of(), prev) + tok_text(toks[0]) + layout(
            toks.drop_first(),
            Some(toks[0].span_of()),
        )
    }
}

/// Spacing of a format spec: between two tokens, one line break per line
/// that separates them and then one space per column from the end of the
/// first to the start of the second (none where the second does not start
/// after the first ends); nothing before the first token.
pub proof fn law_layout_spacing(text: String, span: Span, rest: Seq<RawTok>, prev: Option<Span>)
    ensures
        layout(seq![RawTok::Leaf { text, span }] + rest, prev) == (match prev {
            None => Seq::<char>::empty(),
            Some(p) => Seq::new(
                if p.end.line < span.start.line {
                    (span.start.line - p.end.line) as nat
                } else {
                    0nat
                },
                |_i: int| '\n',
            ) + Seq::new(
                if p.end.column < span.start.column {
                    (span.start.column - p.end.column) as nat
                } else {
                    0nat
                },
                |_i: int| ' ',
            ),
        }) + text@ + layout(rest, Some(span)),
{
    let toks = seq![RawTok::Leaf { text, span }] + rest;
    assert(toks[0] == RawTok::Leaf { text, span });
    assert(toks.drop_first() =~= rest);
    match prev {
        None => {},
        Some(p) => {
            assert(raw_gap(span, prev) =~= Seq::new(
                if p.end.line < span.start.line {
                    (span.start.line - p.end.line) as nat
                } else {
                    0nat
                },
                |_i: int| '\n',
            ) + Seq::new(
                if p.end.column < span.start.column {
                    (span.start.column - p.end.column) as nat
                } else {
                    0nat
                },
                |_i: int| ' ',
            ));
        },
    }
    assert(layout(toks, prev) == raw_gap(span, prev) + tok_text(toks[0]) + layout(rest, Some(span)));
    assert(tok_text(toks[0]) == text@);
}

/// Appends the white space that goes before a token at `sp`.
fn push_raw_gap(out: &mut Vec<char>, sp: Span, prev: Option<Span>)
    ensures
        final(out)@ == old(out)@ + raw_gap(sp, prev),
{
    match prev {
        None => {
            assert(old(out)@ + raw_gap(sp, prev) == old(out)@);
        },
        Some(p) => {
            let (l, c) = sub_span(sp, p);
            push_repeat(out, '\n', l);
            push_repeat(out, ' ', c);
            assert(final(out)@ =~= old(out)@ + raw_gap(sp, prev));
        },
    }
}

/// Appends the characters of `s`.
pub fn push_str(out: &mut Vec<char>, s: &str)
    ensures
        final(out)@ == old(out)@ + s@,
{
    let ghost start = out@;
    let cs = crate::text::chars_of(s);
    let mut k: usize = 0;
    while k < cs.len()
        invariant
            k <= cs.len(),
            cs@ == s@,
            out@ == start + cs@.take(k as int),
        decreases cs.len() - k,
    {
        out.push(cs[k]);
        assert(cs@.take(k + 1) == cs@.take(k as int).push(cs@[k as int]));
        k += 1;
    }
    assert(cs@.take(cs.len() as int) == cs@);
}

proof fn lemma_layout_step(toks: Seq<RawTok>, i: int, prev: Option<Span>)
    requires
        0 <= i < toks.len(),
    ensures
        layout(toks.skip(i), prev) == raw_gap(toks[i].span_of(), prev) + tok_text(toks[i])
            + layout(toks.skip(i + 1), Some(toks[i].span_of())),
{
    let rest = toks.skip(i);
    assert(rest[0] == toks[i]);
    assert(rest.drop_first() == toks.skip(i + 1));
}

/// Appends the text of one token.
fn tok_text_into(t: &RawTok, out: &mut Vec<char>)
    ensures
        final(out)@ == old(out)@ + tok_text(*t),
    decreases *t,
{
    match t {
        RawTok::Leaf { text, .. } => {
            push_str(out, text.as_str());
        },
        RawTok::Group { delim, inner, .. } => {
            let ghost start = out@;
            out.push(delim.open());
            layout_into(inner, out);
            out.push(delim.close());
            assert(out@ =~= start + tok_text(*t));
        },
    }
}

/// Appends the layout of `toks` to `out`.
pub(crate) fn layout_into(toks: &Vec<RawTok>, out: &mut Vec<char>)
    ensures
        final(out)@ == old(out)@ + layout(toks@, None),
    decreases toks@,
{
    let ghost start = out@;
    let mut prev: Option<Span> = None;
    let n = toks.len();
    assert(toks@.skip(0) == toks@);
    for i in 0..n
        invariant
            n == toks.len(),
            i == 0 ==> prev is None,
            start + layout(toks@, None) == out@ + layout(toks@.skip(i as int), prev),
    {
        let t = &toks[i];
        proof {
            lemma_layout_step(toks@, i as int, prev);
        }
        let sp = t.span();
        let ghost before = out@;
        push_raw_gap(out, sp, prev);
        proof {
            assert(decreases_to!(toks@ => toks@[i as int]));
        }
        tok_text_into(t, out);
        assert(before + (raw_gap(sp, prev) + tok_text(*t) + layout(toks@.skip(i + 1), Some(sp)))
            =~= out@ + layout(toks@.skip(i + 1), Some(sp)));
        prev = Some(sp);
    }
    assert(layout(toks@.skip(n as int), prev) == Seq::<char>::empty());
}

/// The text of `toks`, laid out by their positions: between two tokens, a
/// line break per line and a space per column that separate them; a group is
/// written between its delimiters.
pub fn to_string(toks: &Vec<RawTok>) -> (r: String)
    ensures
        r@ == layout(toks@, None),
{
    let mut out: Vec<char> = Vec::new();
    layout_into(toks, &mut out);
    string_of(&out)
}

} // verus!
