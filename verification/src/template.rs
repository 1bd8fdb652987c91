//! The `t!` and `t_println!` expansions: reading a token stream as text with
//! `{expr}` interpolations, and choosing between `String::new`, `String::from`
//! and `format!` (or the matching `println!` forms).

use vstd::prelude::*;

use crate::fstring::unescape;
use crate::text::string_of;
use crate::tokens::{
    close_char, layout, layout_into, open_char, push_repeat, push_str, repeat_char, sat_sub, span_gap,
    sub_end_span, sub_span, sub_start_span, Delim, RawTok, Span,
};
use crate::unindent::{
    dedent, dedent_spec, is_blank, law_dedent_keeps_text, lemma_visible_blank, lemma_visible_concat,
    lemma_visible_one, visible,
};

verus! {

/// A token as `t!` reads it.
#[derive(Debug)]
pub enum Tok {
    /// A token written out as text (an identifier, punctuation, a literal, a
    /// lifetime, or an invisible group).
    Plain(RawTok),
    /// A parenthesis or bracket group, whose content is read as `t!` input too.
    Nested { delim: Delim, span: Span, first: Span, inner: Vec<Tok> },
    /// A brace group `{ expr }` or `{ expr: spec }`: `expr` names the
    /// expression; `str_lit` holds its value when it is a string literal;
    /// `spec` holds the tokens after the `:`, if there is one.
    Interp { span: Span, expr: usize, str_lit: Option<String>, spec: Option<Vec<RawTok>> },
}

/// A piece of the template: text, or an interpolated expression with its
/// format spec (such as `":#x"`, or empty).
#[derive(Debug)]
pub enum Ty2 {
    Str(String),
    Expr(usize, String),
}

/// A piece of the template, as a value.
pub enum Part {
    Text(Seq<char>),
    Hole(usize, Seq<char>),
}

impl Ty2 {
    pub open spec fn part(self) -> Part {
        match self {
            Ty2::Str(s) => Part::Text(s@),
            Ty2::Expr(e, r) => Part::Hole(e, r@),
        }
    }
}

pub open spec fn parts(v: Seq<Ty2>) -> Seq<Part> {
    v.map_values(|t: Ty2| t.part())
}

/// The state of reading a token stream: the pieces so far, the text not yet
/// made a piece, the span of the first token, and that of the last one read.
pub struct TsState {
    pub results: Seq<Part>,
    pub string: Seq<char>,
    pub first: Option<Span>,
    pub prev: Option<Span>,
}

pub open spec fn ts_init() -> TsState {
    TsState { results: seq![], string: seq![], first: None, prev: None }
}

/// `a - 1`, or 0.
pub open spec fn dec(a: nat) -> nat {
    if a >= 1 {
        (a - 1) as nat
    } else {
        0
    }
}

/// White space that stands for `l` lines and `c` columns: `l` line breaks and
/// an indentation of `col` when `l > 0`, else `c` spaces.
pub open spec fn gap_text(l: nat, c: nat, col: nat) -> Seq<char> {
    if l > 0 {
        repeat_char('\n', l) + repeat_char(' ', col)
    } else if c > 0 {
        repeat_char(' ', c)
    } else {
        seq![]
    }
}

/// The white space before a token at `span` after a token at `prev`.
pub open spec fn update_text(span: Span, prev: Option<Span>) -> Seq<char> {
    match prev {
        None => seq![],
        Some(p) => gap_text(span_gap(span, p).0, span_gap(span, p).1, span.start.column as nat),
    }
}

/// The white space between the opening delimiter of a group at `s` and the
/// first token inside it, at `content`.
pub open spec fn head_text(s: Span, content: Span) -> Seq<char> {
    gap_text(
        sat_sub(content.start.line, s.start.line),
        dec(sat_sub(content.start.column, s.start.column)),
        content.start.column as nat,
    )
}

/// The white space between the last token inside a group at `s`, at `last`,
/// and its closing delimiter.
pub open spec fn tail_text(s: Span, last: Span) -> Seq<char> {
    gap_text(
        sat_sub(s.end.line, last.end.line),
        dec(sat_sub(s.end.column, last.end.column)),
        s.start.column as nat,
    )
}

/// The text of a token written out, after a token at `prev`.
pub open spec fn p_text(t: RawTok, prev: Option<Span>) -> Seq<char>
    decreases t,
{
    match t {
        RawTok::Leaf { text, span } => update_text(span, prev) + text@,
        RawTok::Group { delim, span, first, inner } => update_text(span, prev) + seq![
            open_char(delim),
        ] + p_seq(inner@, first) + seq![close_char(delim)],
    }
}

/// The text of the tokens `toks` written out, the first after a token at `prev`.
pub open spec fn p_seq(toks: Seq<RawTok>, prev: Span) -> Seq<char>
    decreases toks,
{
    if toks.len() == 0 {
        seq![]
    } else {
        p_text(toks[0], Some(prev)) + p_seq(toks.drop_first(), toks[0].span_of())
    }
}

pub open spec fn first_or(first: Option<Span>, s: Span) -> Option<Span> {
    if first is None {
        Some(s)
    } else {
        first
    }
}

/// The format spec of an interpolation: `':'` and the text of the tokens after
/// it, or nothing.
pub open spec fn spec_text(spec: Option<Vec<RawTok>>) -> Seq<char> {
    match spec {
        Some(ts) => seq![':'] + layout(ts@, None),
        None => seq![],
    }
}

/// The piece an interpolation gives: the value of a string literal without a
/// format spec is folded into the text; anything else is a hole.
pub open spec fn interp_part(expr: usize, str_lit: Option<String>, r: Seq<char>) -> Part {
    match str_lit {
        Some(v) => if r.len() == 0 {
            Part::Text(v@)
        } else {
            Part::Hole(expr, r)
        },
        None => Part::Hole(expr, r),
    }
}

/// The state after reading token `t`.
pub open spec fn ts_step(t: Tok, st: TsState) -> TsState
    decreases t,
{
    match t {
        Tok::Plain(raw) => TsState {
            results: st.results,
            string: st.string + p_text(raw, st.prev),
            first: first_or(st.first, raw.span_of()),
            prev: Some(raw.span_of()),
        },
        Tok::Nested { delim, span, first, inner } => {
            let inner_st = ts_finish(ts_fold(inner@, ts_init()));
            let opened = st.string + update_text(span, st.prev) + seq![open_char(delim)];
            let tail = match inner_st.prev {
                Some(last) => seq![Part::Text(tail_text(span, last))],
                None => seq![],
            };
            TsState {
                results: st.results.push(Part::Text(opened)).push(Part::Text(head_text(span, first)))
                    + inner_st.results + tail,
                string: seq![close_char(delim)],
                first: first_or(st.first, span),
                prev: Some(span),
            }
        },
        Tok::Interp { span, expr, str_lit, spec } => TsState {
            results: st.results.push(Part::Text(st.string + update_text(span, st.prev))).push(
                interp_part(expr, str_lit, spec_text(spec)),
            ),
            string: seq![],
            first: first_or(st.first, span),
            prev: Some(span),
        },
    }
}

/// The state after reading the tokens `toks` in turn.
pub open spec fn ts_fold(toks: Seq<Tok>, st: TsState) -> TsState
    decreases toks,
{
    if toks.len() == 0 {
        st
    } else {
        ts_fold(toks.drop_first(), ts_step(toks[0], st))
    }
}

/// The text not yet made a piece becomes the last piece, when there is any.
pub open spec fn ts_finish(st: TsState) -> TsState {
    if st.string.len() > 0 {
        TsState { results: st.results.push(Part::Text(st.string)), string: seq![], ..st }
    } else {
        st
    }
}

/// What reading the token stream `toks` gives.
pub open spec fn ts_spec(toks: Seq<Tok>) -> TsState {
    ts_finish(ts_fold(toks, ts_init()))
}

/// A token stream read as a template.
pub struct Ts {
    pub results: Vec<Ty2>,
    pub first_span: Option<Span>,
    pub last_span: Option<Span>,
}

/// The reading state, as it is built.
struct TsBuild {
    results: Vec<Ty2>,
    string: Vec<char>,
    first: Option<Span>,
    prev: Option<Span>,
}

impl TsBuild {
    spec fn state(self) -> TsState {
        TsState {
            results: parts(self.results@),
            string: self.string@,
            first: self.first,
            prev: self.prev,
        }
    }
}

/// Appends `gap_text(l, c, col)`.
fn update(out: &mut Vec<char>, l: usize, c: usize, col: usize)
    ensures
        final(out)@ == old(out)@ + gap_text(l as nat, c as nat, col as nat),
{
    if l > 0 {
        push_repeat(out, '\n', l);
        push_repeat(out, ' ', col);
        assert(final(out)@ =~= old(out)@ + gap_text(l as nat, c as nat, col as nat));
    } else if c > 0 {
        push_repeat(out, ' ', c);
    } else {
        assert(old(out)@ + gap_text(l as nat, c as nat, col as nat) =~= old(out)@);
    }
}

/// Appends the white space before a token at `span` after one at `prev`.
fn update_span(out: &mut Vec<char>, span: Span, prev: Option<Span>)
    ensures
        final(out)@ == old(out)@ + update_text(span, prev),
{
    match prev {
        Some(p) => {
            let (l, c) = sub_span(span, p);
            update(out, l, c, span.start.column);
        },
        None => {
            assert(old(out)@ + update_text(span, prev) =~= old(out)@);
        },
    }
}

/// Writes one token out as text after a token at `prev`; returns its span.
fn p(t: &RawTok, result: &mut Vec<char>, prev: Option<Span>) -> (r: Span)
    ensures
        final(result)@ == old(result)@ + p_text(*t, prev),
        r == t.span_of(),
    decreases *t,
{
    match t {
        RawTok::Leaf { text, span } => {
            update_span(result, *span, prev);
            push_str(result, text.as_str());
            assert(final(result)@ =~= old(result)@ + p_text(*t, prev));
            *span
        },
        RawTok::Group { delim, span, first, inner } => {
            update_span(result, *span, prev);
            result.push(delim.open());
            let ghost mid = result@;
            let mut prev_span = *first;
            let n = inner.len();
            assert(inner@.skip(0) == inner@);
            assert forall|j: int| 0 <= j < inner@.len() implies decreases_to!(*t => #[trigger] inner@[j]) by {
                assert(decreases_to!(*t => inner@));
            }
            for i in 0..n
                invariant
                    n == inner.len(),
                    forall|j: int| 0 <= j < inner@.len() ==> decreases_to!(*t => #[trigger] inner@[j]),
                    mid + p_seq(inner@, *first) == result@ + p_seq(inner@.skip(i as int), prev_span),
            {
                let ghost rest = inner@.skip(i as int);
                assert(rest[0] == inner@[i as int]);
                assert(rest.drop_first() == inner@.skip(i + 1));
                let ghost before = result@;
                let ghost old_prev = prev_span;
                prev_span = p(&inner[i], result, Some(prev_span));
                assert(before + p_seq(rest, old_prev) =~= result@ + p_seq(
                    inner@.skip(i + 1),
                    prev_span,
                ));
            }
            assert(p_seq(inner@.skip(n as int), prev_span) == Seq::<char>::empty());
            result.push(delim.close());
            assert(final(result)@ =~= old(result)@ + p_text(*t, prev));
            *span
        },
    }
}

/// Appends a piece.
fn push_part(results: &mut Vec<Ty2>, t: Ty2)
    ensures
        parts(final(results)@) == parts(old(results)@).push(t.part()),
{
    let ghost tp = t.part();
    results.push(t);
    assert(parts(final(results)@) =~= parts(old(results)@).push(tp));
}

/// Reads one token.
fn ts_step_exec(t: &Tok, st: &mut TsBuild)
    ensures
        final(st).state() == ts_step(*t, old(st).state()),
    decreases *t,
{
    match t {
        Tok::Plain(raw) => {
            let sp = p(raw, &mut st.string, st.prev);
            st.prev = Some(sp);
            if st.first.is_none() {
                st.first = st.prev;
            }
        },
        Tok::Nested { delim, span, first, inner } => {
            let ghost old_results = parts(st.results@);
            let ghost opened_v = st.string@ + update_text(*span, st.prev) + seq![open_char(*delim)];
            let ghost inner_st = ts_spec(inner@);
            assert(inner_st == ts_finish(ts_fold(inner@, ts_init())));
            if st.first.is_none() {
                st.first = Some(*span);
            }
            update_span(&mut st.string, *span, st.prev);
            st.prev = Some(*span);
            st.string.push(delim.open());
            assert(st.string@ == opened_v);
            let opened = string_of(&st.string);
            push_part(&mut st.results, Ty2::Str(opened));
            st.string = Vec::new();
            let mut head: Vec<char> = Vec::new();
            let (l, c) = sub_start_span(*first, *span);
            update(&mut head, l, c.saturating_sub(1), first.start.column);
            assert(head@ == head_text(*span, *first));
            let mut ts = ts_parse(inner);
            let hs = string_of(&head);
            push_part(&mut st.results, Ty2::Str(hs));
            let ghost before = st.results@;
            let ghost inner_results = ts.results@;
            st.results.append(&mut ts.results);
            assert(parts(st.results@) =~= parts(before) + parts(inner_results));
            match ts.last_span {
                Some(last) => {
                    let mut tail: Vec<char> = Vec::new();
                    let (l, c) = sub_end_span(*span, last);
                    update(&mut tail, l, c.saturating_sub(1), span.start.column);
                    let ts_tail = string_of(&tail);
                    push_part(&mut st.results, Ty2::Str(ts_tail));
                },
                None => {},
            }
            let ghost tail_v: Seq<Part> = match inner_st.prev {
                Some(last) => seq![Part::Text(tail_text(*span, last))],
                None => seq![],
            };
            assert(parts(st.results@) =~= old_results.push(Part::Text(opened_v)).push(
                Part::Text(head_text(*span, *first)),
            ) + inner_st.results + tail_v);
            st.string.push(delim.close());
            assert(st.string@ =~= seq![close_char(*delim)]);
            assert(st.state().results =~= ts_step(*t, old(st).state()).results);
        },
        Tok::Interp { span, expr, str_lit, spec } => {
            if st.first.is_none() {
                st.first = Some(*span);
            }
            update_span(&mut st.string, *span, st.prev);
            st.prev = Some(*span);
            let text = string_of(&st.string);
            push_part(&mut st.results, Ty2::Str(text));
            st.string = Vec::new();
            let mut r: Vec<char> = Vec::new();
            match spec {
                Some(ts) => {
                    r.push(':');
                    layout_into(ts, &mut r);
                },
                None => {},
            }
            assert(r@ =~= spec_text(*spec));
            let part = match str_lit {
                Some(v) => {
                    if r.len() == 0 {
                        Ty2::Str(v.clone())
                    } else {
                        Ty2::Expr(*expr, string_of(&r))
                    }
                },
                None => Ty2::Expr(*expr, string_of(&r)),
            };
            push_part(&mut st.results, part);
            assert(st.string@ =~= Seq::<char>::empty());
        },
    }
}

/// Reads a token stream as a template: text, with the white space between
/// tokens rebuilt from their positions, and interpolations.
pub fn ts_parse(toks: &Vec<Tok>) -> (r: Ts)
    ensures
        parts(r.results@) == ts_spec(toks@).results,
        r.first_span == ts_spec(toks@).first,
        r.last_span == ts_spec(toks@).prev,
    decreases toks@,
{
    let mut st = TsBuild { results: Vec::new(), string: Vec::new(), first: None, prev: None };
    assert(st.state().results =~= ts_init().results);
    assert(st.state() == ts_init());
    let n = toks.len();
    assert(toks@.skip(0) == toks@);
    for i in 0..n
        invariant
            n == toks.len(),
            ts_fold(toks@, ts_init()) == ts_fold(toks@.skip(i as int), st.state()),
    {
        let ghost rest = toks@.skip(i as int);
        assert(rest[0] == toks@[i as int]);
        assert(rest.drop_first() == toks@.skip(i + 1));
        proof {
            assert(decreases_to!(toks@ => toks@[i as int]));
        }
        ts_step_exec(&toks[i], &mut st);
    }
    assert(toks@.skip(n as int) == Seq::<Tok>::empty());
    if st.string.len() > 0 {
        let s = string_of(&st.string);
        push_part(&mut st.results, Ty2::Str(s));
    }
    Ts { results: st.results, first_span: st.first, last_span: st.prev }
}

// ----------------------------------------------------------------------------
// The template and its arguments
// ----------------------------------------------------------------------------

/// The expressions interpolated by the pieces `ps`, in order.
pub open spec fn holes(ps: Seq<Part>) -> Seq<usize>
    decreases ps.len(),
{
    if ps.len() == 0 {
        seq![]
    } else {
        match ps.last() {
            Part::Hole(e, _) => holes(ps.drop_last()).push(e),
            Part::Text(_) => holes(ps.drop_last()),
        }
    }
}

/// `s` with each brace doubled, so that `format!` writes it as it is.
pub open spec fn escape(s: Seq<char>) -> Seq<char>
    decreases s.len(),
{
    if s.len() == 0 {
        seq![]
    } else if s.last() == '{' {
        escape(s.drop_last()) + seq!['{', '{']
    } else if s.last() == '}' {
        escape(s.drop_last()) + seq!['}', '}']
    } else {
        escape(s.drop_last()).push(s.last())
    }
}

/// What a piece contributes to the template: its text (escaped when the
/// template goes to `format!`), or `{spec}` for a hole.
pub open spec fn part_value(p: Part, is_format: bool) -> Seq<char> {
    match p {
        Part::Text(s) => if is_format {
            escape(s)
        } else {
            s
        },
        Part::Hole(_, r) => seq!['{'] + r + seq!['}'],
    }
}

pub open spec fn joined(ps: Seq<Part>, is_format: bool) -> Seq<char>
    decreases ps.len(),
{
    if ps.len() == 0 {
        seq![]
    } else {
        joined(ps.drop_last(), is_format) + part_value(ps.last(), is_format)
    }
}

/// The text before dedenting: when the first token stands on a later line than
/// the macro call, it is indented by its column.
pub open spec fn indented(ts: TsState, call_line: usize) -> Seq<char> {
    let j = joined(ts.results, holes(ts.results).len() > 0);
    match ts.first {
        Some(fs) => if call_line < fs.start.line {
            repeat_char(' ', fs.start.column as nat) + j
        } else {
            j
        },
        None => j,
    }
}

/// The template that `t!` gives for the tokens `toks`, called on line `call_line`.
pub open spec fn template_spec(toks: Seq<Tok>, call_line: usize) -> Seq<char> {
    dedent_spec(indented(ts_spec(toks), call_line))
}

/// The expressions that `t!` passes to `format!` for the tokens `toks`.
pub open spec fn args_spec(toks: Seq<Tok>) -> Seq<usize> {
    holes(ts_spec(toks).results)
}

/// Appends `escape(s)`.
fn push_escaped(out: &mut Vec<char>, s: &str)
    ensures
        final(out)@ == old(out)@ + escape(s@),
{
    let ghost start = out@;
    let cs = crate::text::chars_of(s);
    for k in 0..cs.len()
        invariant
            cs@ == s@,
            out@ == start + escape(cs@.take(k as int)),
    {
        let c = cs[k];
        let ghost pre = cs@.take(k as int);
        assert(cs@.take(k + 1).drop_last() == pre);
        assert(cs@.take(k + 1).last() == c);
        if c == '{' {
            out.push('{');
            out.push('{');
        } else if c == '}' {
            out.push('}');
            out.push('}');
        } else {
            out.push(c);
        }
        assert(out@ =~= start + escape(cs@.take(k + 1)));
    }
    assert(cs@.take(cs.len() as int) == cs@);
}

impl Ty2 {
    /// What the piece contributes to the template (see `part_value`).
    pub fn value(&self, is_format: bool) -> (r: String)
        ensures
            r@ == part_value(self.part(), is_format),
    {
        let mut v: Vec<char> = Vec::new();
        match self {
            Ty2::Str(text) => {
                if is_format {
                    push_escaped(&mut v, text.as_str());
                } else {
                    push_str(&mut v, text.as_str());
                }
                assert(v@ =~= part_value(self.part(), is_format));
            },
            Ty2::Expr(_, r) => {
                v.push('{');
                push_str(&mut v, r.as_str());
                v.push('}');
                assert(v@ =~= part_value(self.part(), is_format));
            },
        }
        string_of(&v)
    }

    /// Whether the piece interpolates an expression.
    pub fn is_expr(&self) -> (r: bool)
        ensures
            r == (self.part() is Hole),
    {
        match self {
            Ty2::Expr(..) => true,
            Ty2::Str(_) => false,
        }
    }
}

/// Reads the tokens of a `t!` call made on line `call_line`: the template
/// text, dedented, and the expressions it interpolates.
pub fn parse_t(toks: &Vec<Tok>, call_line: usize) -> (r: (String, Vec<usize>))
    ensures
        r.0@ == template_spec(toks@, call_line),
        r.1@ == args_spec(toks@),
{
    let ts = ts_parse(toks);
    let ghost ps = parts(ts.results@);
    let n = ts.results.len();
    let mut args: Vec<usize> = Vec::new();
    for k in 0..n
        invariant
            n == ts.results.len(),
            ps == parts(ts.results@),
            args@ == holes(ps.take(k as int)),
    {
        assert(ps.take(k + 1).drop_last() == ps.take(k as int));
        assert(ps.take(k + 1).last() == ts.results@[k as int].part());
        match &ts.results[k] {
            Ty2::Expr(e, _) => {
                args.push(*e);
            },
            Ty2::Str(_) => {},
        }
    }
    assert(ps.take(n as int) == ps);
    let is_format = args.len() > 0;
    let mut s: Vec<char> = Vec::new();
    for k in 0..n
        invariant
            n == ts.results.len(),
            ps == parts(ts.results@),
            is_format == (holes(ps).len() > 0),
            s@ == joined(ps.take(k as int), is_format),
    {
        assert(ps.take(k + 1).drop_last() == ps.take(k as int));
        assert(ps.take(k + 1).last() == ts.results@[k as int].part());
        let v = ts.results[k].value(is_format);
        push_str(&mut s, v.as_str());
    }
    assert(ps.take(n as int) == ps);
    let ghost st = ts_spec(toks@);
    assert(ps == st.results);
    let full = match ts.first_span {
        Some(fs) => {
            if call_line < fs.start.line {
                let mut v: Vec<char> = Vec::new();
                push_repeat(&mut v, ' ', fs.start.column);
                let ghost pad = v@;
                let mut k: usize = 0;
                while k < s.len()
                    invariant
                        k <= s.len(),
                        v@ == pad + s@.take(k as int),
                    decreases s.len() - k,
                {
                    v.push(s[k]);
                    assert(s@.take(k + 1) == s@.take(k as int).push(s@[k as int]));
                    k += 1;
                }
                assert(s@.take(s.len() as int) == s@);
                v
            } else {
                s
            }
        },
        None => s,
    };
    assert(full@ == indented(st, call_line));
    let text = string_of(&full);
    (dedent(text.as_str()), args)
}

proof fn lemma_holes_visible(ps: Seq<Part>, is_format: bool)
    requires
        holes(ps).len() > 0,
    ensures
        visible(joined(ps, is_format)).len() > 0,
    decreases ps.len(),
{
    let init = ps.drop_last();
    let v = part_value(ps.last(), is_format);
    lemma_visible_concat(joined(init, is_format), v);
    match ps.last() {
        Part::Hole(_, r) => {
            lemma_visible_concat(seq!['{'], r + seq!['}']);
            assert(seq!['{'] + (r + seq!['}']) == v);
            lemma_visible_one('{');
        },
        Part::Text(_) => {
            lemma_holes_visible(init, is_format);
        },
    }
}

/// When the template interpolates an expression it is not empty, so `t!`
/// always has one of its three expansions.
pub proof fn law_args_need_text(toks: Seq<Tok>, call_line: usize)
    requires
        args_spec(toks).len() > 0,
    ensures
        template_spec(toks, call_line).len() > 0,
{
    let st = ts_spec(toks);
    let j = joined(st.results, true);
    lemma_holes_visible(st.results, true);
    let full = indented(st, call_line);
    match st.first {
        Some(fs) => {
            if call_line < fs.start.line {
                let pad = repeat_char(' ', fs.start.column as nat);
                assert(is_blank(pad));
                lemma_visible_blank(pad);
                lemma_visible_concat(pad, j);
                assert(visible(pad) + visible(j) =~= visible(j));
            }
        },
        None => {},
    }
    assert(visible(full).len() > 0);
    law_dedent_keeps_text(full);
    let out = template_spec(toks, call_line);
    if out.len() == 0 {
        assert(visible(out) == Seq::<char>::empty());
    }
}

// ----------------------------------------------------------------------------
// Where tokens stand
// ----------------------------------------------------------------------------

/// The span of a token, whatever its kind.
pub open spec fn tok_span(t: Tok) -> Span {
    match t {
        Tok::Plain(raw) => raw.span_of(),
        Tok::Nested { span, .. } => span,
        Tok::Interp { span, .. } => span,
    }
}

/// The white space that stands for the distance from the end of a token at
/// `p` to the start of one at `s`: on a later line, that many line breaks and
/// then `s`'s column of spaces; on the same line, one space per column
/// between them.
pub open spec fn white_between(p: Span, s: Span) -> Seq<char> {
    if p.end.line < s.start.line {
        Seq::new((s.start.line - p.end.line) as nat, |_i: int| '\n') + Seq::new(
            s.start.column as nat,
            |_i: int| ' ',
        )
    } else if p.end.column < s.start.column {
        Seq::new((s.start.column - p.end.column) as nat, |_i: int| ' ')
    } else {
        seq![]
    }
}

/// The white space written before a token at `s` after a token at `prev`
/// (none before the first token).
pub open spec fn white_before(prev: Option<Span>, s: Span) -> Seq<char> {
    match prev {
        Some(p) => white_between(p, s),
        None => seq![],
    }
}

/// The white space between the opening delimiter of a group at `s` and its
/// first token, at `f`: on a later line, that many line breaks and then `f`'s
/// column of spaces; on the same line, one space per column between the
/// delimiter and the token.
pub open spec fn white_after_open(s: Span, f: Span) -> Seq<char> {
    if s.start.line < f.start.line {
        Seq::new((f.start.line - s.start.line) as nat, |_i: int| '\n') + Seq::new(
            f.start.column as nat,
            |_i: int| ' ',
        )
    } else if s.start.column + 1 < f.start.column {
        Seq::new((f.start.column - s.start.column - 1) as nat, |_i: int| ' ')
    } else {
        seq![]
    }
}

/// The white space between the last token of a group at `s`, at `l`, and
/// its closing delimiter: on a later line, that many line breaks and then the
/// group's own column of spaces; on the same line, one space per column
/// between the token and the delimiter.
pub open spec fn white_before_close(s: Span, l: Span) -> Seq<char> {
    if l.end.line < s.end.line {
        Seq::new((s.end.line - l.end.line) as nat, |_i: int| '\n') + Seq::new(
            s.start.column as nat,
            |_i: int| ' ',
        )
    } else if l.end.column + 1 < s.end.column {
        Seq::new((s.end.column - l.end.column - 1) as nat, |_i: int| ' ')
    } else {
        seq![]
    }
}

proof fn lemma_head_tail(s: Span, f: Span)
    ensures
        head_text(s, f) == white_after_open(s, f),
        tail_text(s, f) == white_before_close(s, f),
{
    assert(head_text(s, f) =~= white_after_open(s, f));
    assert(tail_text(s, f) =~= white_before_close(s, f));
}

proof fn lemma_update_text(s: Span, prev: Option<Span>)
    ensures
        update_text(s, prev) == white_before(prev, s),
{
    match prev {
        Some(p) => {
            if p.end.line < s.start.line {
                assert(update_text(s, prev) =~= white_before(prev, s));
            } else if p.end.column < s.start.column {
                assert(update_text(s, prev) =~= white_before(prev, s));
            } else {
                assert(update_text(s, prev) =~= white_before(prev, s));
            }
        },
        None => {},
    }
}

/// Spacing: the white space written before a token is the same whatever its
/// kind (text, a group, an interpolation): after a line break it is indented
/// by the token's own column, on the same line it is one space per column of
/// distance from the token before.
pub proof fn law_white_before_token(t: Tok, st: TsState)
    ensures
        t matches Tok::Plain(raw) ==> {
            &&& ts_step(t, st).results == st.results
            &&& (st.string + white_before(st.prev, raw.span_of())).is_prefix_of(ts_step(t, st).string)
        },
        t matches Tok::Plain(RawTok::Leaf { text, span }) ==> ts_step(t, st).string == st.string
            + white_before(st.prev, span) + text@,
        t matches Tok::Nested { delim, span, .. } ==> ts_step(t, st).results[st.results.len() as int]
            == Part::Text(st.string + white_before(st.prev, span) + seq![open_char(delim)]),
        t matches Tok::Nested { span, first, .. } ==> ts_step(t, st).results[st.results.len() + 1int]
            == Part::Text(white_after_open(span, first)),
        t matches Tok::Nested { span, inner, .. } ==> (ts_spec(inner@).prev matches Some(last)
            ==> ts_step(t, st).results.last() == Part::Text(white_before_close(span, last))),
        t matches Tok::Nested { delim, .. } ==> ts_step(t, st).string == seq![close_char(delim)],
        t matches Tok::Interp { span, .. } ==> ts_step(t, st).results[st.results.len() as int]
            == Part::Text(st.string + white_before(st.prev, span)),
        ts_step(t, st).prev == Some(tok_span(t)),
{
    lemma_update_text(tok_span(t), st.prev);
    match t {
        Tok::Plain(raw) => {
            match raw {
                RawTok::Leaf { text, span } => {
                    assert(ts_step(t, st).string =~= st.string + white_before(st.prev, span) + text@);
                },
                RawTok::Group { delim, span, first, inner } => {
                    let w = st.string + white_before(st.prev, span);
                    assert(ts_step(t, st).string =~= w + (seq![open_char(delim)] + p_seq(inner@, first)
                        + seq![close_char(delim)]));
                },
            }
        },
        Tok::Nested { delim, span, first, inner } => {
            let inner_st = ts_finish(ts_fold(inner@, ts_init()));
            let tail: Seq<Part> = match inner_st.prev {
                Some(last) => seq![Part::Text(tail_text(span, last))],
                None => seq![],
            };
            let opened = st.string + update_text(span, st.prev) + seq![open_char(delim)];
            let a = st.results.push(Part::Text(opened)).push(Part::Text(head_text(span, first)));
            assert((a + inner_st.results + tail)[st.results.len() as int] == a[st.results.len() as int]);
            assert((a + inner_st.results + tail)[st.results.len() + 1int] == a[st.results.len() + 1int]);
            lemma_head_tail(span, first);
            match inner_st.prev {
                Some(last) => {
                    lemma_head_tail(span, last);
                    assert((a + inner_st.results + tail).last() == tail[0]);
                },
                None => {},
            }
        },
        Tok::Interp { span, expr, str_lit, spec } => {},
    }
}

/// Spacing inside a group written out as text: before each token, the white
/// space that stands for its distance from the token before it (the first
/// token measured from the group's `first` span), as before any token.
pub proof fn law_text_token_spacing(text: String, span: Span, rest: Seq<RawTok>, prev: Span)
    ensures
        p_seq(seq![RawTok::Leaf { text, span }] + rest, prev) == white_between(prev, span) + text@
            + p_seq(rest, span),
{
    let toks = seq![RawTok::Leaf { text, span }] + rest;
    assert(toks[0] == RawTok::Leaf { text, span });
    assert(toks.drop_first() =~= rest);
    lemma_update_text(span, Some(prev));
    assert(p_seq(toks, prev) == p_text(toks[0], Some(prev)) + p_seq(rest, span));
    assert(p_text(toks[0], Some(prev)) == update_text(span, Some(prev)) + text@);
    assert(p_seq(toks, prev) =~= white_between(prev, span) + text@ + p_seq(rest, span));
}

proof fn lemma_fold_keeps_first(toks: Seq<Tok>, st: TsState)
    requires
        st.first is Some,
    ensures
        ts_fold(toks, st).first == st.first,
    decreases toks.len(),
{
    if toks.len() > 0 {
        let next = ts_step(toks[0], st);
        assert(next.first == st.first);
        lemma_fold_keeps_first(toks.drop_first(), next);
    }
}

/// The first span of a template is that of its first token, whatever its kind.
pub proof fn law_first_span(toks: Seq<Tok>)
    requires
        toks.len() > 0,
    ensures
        ts_spec(toks).first == Some(tok_span(toks[0])),
{
    let st1 = ts_step(toks[0], ts_init());
    assert(st1.first == Some(tok_span(toks[0])));
    lemma_fold_keeps_first(toks.drop_first(), st1);
}

/// Indentation: when the first token of a `t!` call (text, group or
/// interpolation) stands on a later line than the call, the template is that
/// token's column of spaces followed by the text of the pieces, dedented; on
/// the call's line, the text of the pieces dedented.
pub proof fn law_first_token_indent(toks: Seq<Tok>, call_line: usize)
    requires
        toks.len() > 0,
    ensures
        call_line < tok_span(toks[0]).start.line ==> template_spec(toks, call_line) == dedent_spec(
            Seq::new(tok_span(toks[0]).start.column as nat, |_i: int| ' ') + joined(
                ts_spec(toks).results,
                args_spec(toks).len() > 0,
            ),
        ),
        tok_span(toks[0]).start.line <= call_line ==> template_spec(toks, call_line) == dedent_spec(
            joined(ts_spec(toks).results, args_spec(toks).len() > 0),
        ),
{
    law_first_span(toks);
    let c = tok_span(toks[0]).start.column as nat;
    assert(repeat_char(' ', c) =~= Seq::new(c, |_i: int| ' '));
}

/// The expressions that token `t` interpolates: a string literal without a
/// format spec is folded into the text and interpolates nothing.
pub open spec fn tok_args(t: Tok) -> Seq<usize>
    decreases t,
{
    match t {
        Tok::Plain(_) => seq![],
        Tok::Nested { inner, .. } => toks_args(inner@),
        Tok::Interp { expr, str_lit, spec, .. } => if str_lit is Some && spec is None {
            seq![]
        } else {
            seq![expr]
        },
    }
}

/// The expressions that the tokens `toks` interpolate, in order.
pub open spec fn toks_args(toks: Seq<Tok>) -> Seq<usize>
    decreases toks,
{
    if toks.len() == 0 {
        seq![]
    } else {
        tok_args(toks[0]) + toks_args(toks.drop_first())
    }
}

/// The expressions that token `t` names, in source order, folded ones too.
pub open spec fn tok_ids(t: Tok) -> Seq<usize>
    decreases t,
{
    match t {
        Tok::Plain(_) => seq![],
        Tok::Nested { inner, .. } => toks_ids(inner@),
        Tok::Interp { expr, .. } => seq![expr],
    }
}

/// The expressions that the tokens `toks` name, in source order.
pub open spec fn toks_ids(toks: Seq<Tok>) -> Seq<usize>
    decreases toks,
{
    if toks.len() == 0 {
        seq![]
    } else {
        tok_ids(toks[0]) + toks_ids(toks.drop_first())
    }
}

/// `lo, lo + 1, ..., lo + n - 1`.
pub open spec fn id_range(lo: nat, n: nat) -> Seq<usize> {
    Seq::new(n, |j: int| (lo + j) as usize)
}

pub proof fn lemma_toks_ids_push(a: Seq<Tok>, t: Tok)
    ensures
        toks_ids(a.push(t)) == toks_ids(a) + tok_ids(t),
    decreases a.len(),
{
    if a.len() == 0 {
        assert(a.push(t) == seq![t]);
        assert(seq![t].drop_first() == Seq::<Tok>::empty());
        assert(toks_ids(Seq::<Tok>::empty()) == Seq::<usize>::empty());
        assert(tok_ids(t) + Seq::<usize>::empty() == tok_ids(t));
        assert(Seq::<usize>::empty() + tok_ids(t) == tok_ids(t));
    } else {
        assert(a.push(t)[0] == a[0]);
        assert(a.push(t).drop_first() == a.drop_first().push(t));
        lemma_toks_ids_push(a.drop_first(), t);
        assert(tok_ids(a[0]) + (toks_ids(a.drop_first()) + tok_ids(t)) =~= tok_ids(a[0])
            + toks_ids(a.drop_first()) + tok_ids(t));
    }
}

proof fn lemma_tok_args_within(t: Tok, n: nat)
    requires
        forall|j: int| 0 <= j < tok_ids(t).len() ==> tok_ids(t)[j] < n,
    ensures
        forall|j: int| 0 <= j < tok_args(t).len() ==> tok_args(t)[j] < n,
    decreases t,
{
    match t {
        Tok::Plain(_) => {
            assert(tok_args(t) == Seq::<usize>::empty());
        },
        Tok::Nested { inner, .. } => {
            assert(tok_ids(t) == toks_ids(inner@));
            assert(tok_args(t) == toks_args(inner@));
            lemma_toks_args_within(inner@, n);
        },
        Tok::Interp { expr, .. } => {
            assert(tok_ids(t) == seq![expr]);
            assert(tok_ids(t)[0] == expr);
        },
    }
}

/// Every argument of `t!` is among the expressions its tokens name.
pub proof fn lemma_toks_args_within(toks: Seq<Tok>, n: nat)
    requires
        forall|j: int| 0 <= j < toks_ids(toks).len() ==> toks_ids(toks)[j] < n,
    ensures
        forall|j: int| 0 <= j < toks_args(toks).len() ==> toks_args(toks)[j] < n,
    decreases toks,
{
    if toks.len() > 0 {
        let a = tok_ids(toks[0]);
        let b = toks_ids(toks.drop_first());
        assert(toks_ids(toks) == a + b);
        assert(toks_args(toks) == tok_args(toks[0]) + toks_args(toks.drop_first()));
        assert forall|j: int| 0 <= j < a.len() implies a[j] < n by {
            assert((a + b)[j] == a[j]);
        }
        assert forall|j: int| 0 <= j < b.len() implies b[j] < n by {
            assert((a + b)[j + a.len()] == b[j]);
        }
        lemma_tok_args_within(toks[0], n);
        lemma_toks_args_within(toks.drop_first(), n);
        let x = tok_args(toks[0]);
        let y = toks_args(toks.drop_first());
        assert forall|j: int| 0 <= j < toks_args(toks).len() implies toks_args(toks)[j] < n by {
            if j < x.len() {
                assert((x + y)[j] == x[j]);
            } else {
                assert((x + y)[j] == y[j - x.len()]);
            }
        }
    }
}

proof fn lemma_holes_concat(a: Seq<Part>, b: Seq<Part>)
    ensures
        holes(a + b) == holes(a) + holes(b),
    decreases b.len(),
{
    if b.len() == 0 {
        assert(a + b == a);
        assert(holes(a) + Seq::<usize>::empty() == holes(a));
    } else {
        assert((a + b).drop_last() == a + b.drop_last());
        assert((a + b).last() == b.last());
        lemma_holes_concat(a, b.drop_last());
        match b.last() {
            Part::Hole(e, _) => {
                assert(holes(a) + holes(b.drop_last()).push(e) =~= (holes(a) + holes(b.drop_last())).push(e));
            },
            Part::Text(_) => {},
        }
    }
}

proof fn lemma_holes_push(a: Seq<Part>, x: Part)
    ensures
        holes(a.push(x)) == match x {
            Part::Hole(e, _) => holes(a).push(e),
            Part::Text(_) => holes(a),
        },
{
    assert(a.push(x).drop_last() == a);
}

proof fn lemma_step_holes(t: Tok, st: TsState)
    ensures
        holes(ts_step(t, st).results) == holes(st.results) + tok_args(t),
    decreases t,
{
    match t {
        Tok::Plain(_) => {
            assert(holes(st.results) + Seq::<usize>::empty() =~= holes(st.results));
        },
        Tok::Nested { delim, span, first, inner } => {
            let inner_fold = ts_fold(inner@, ts_init());
            let inner_st = ts_finish(inner_fold);
            lemma_fold_holes(inner@, ts_init());
            assert(holes(ts_init().results) == Seq::<usize>::empty());
            if inner_fold.string.len() > 0 {
                lemma_holes_push(inner_fold.results, Part::Text(inner_fold.string));
            }
            assert(holes(inner_st.results) =~= toks_args(inner@));
            let opened = st.string + update_text(span, st.prev) + seq![open_char(delim)];
            let a = st.results.push(Part::Text(opened));
            let b = a.push(Part::Text(head_text(span, first)));
            lemma_holes_push(st.results, Part::Text(opened));
            lemma_holes_push(a, Part::Text(head_text(span, first)));
            lemma_holes_concat(b, inner_st.results);
            let tail: Seq<Part> = match inner_st.prev {
                Some(last) => seq![Part::Text(tail_text(span, last))],
                None => seq![],
            };
            lemma_holes_concat(b + inner_st.results, tail);
            match inner_st.prev {
                Some(last) => {
                    lemma_holes_push(Seq::<Part>::empty(), Part::Text(tail_text(span, last)));
                    assert(Seq::<Part>::empty().push(Part::Text(tail_text(span, last))) == tail);
                },
                None => {},
            }
            assert(holes(tail) == Seq::<usize>::empty());
            assert(holes(b + inner_st.results + tail) =~= holes(st.results) + toks_args(inner@));
        },
        Tok::Interp { span, expr, str_lit, spec } => {
            let a = st.results.push(Part::Text(st.string + update_text(span, st.prev)));
            let x = interp_part(expr, str_lit, spec_text(spec));
            lemma_holes_push(st.results, Part::Text(st.string + update_text(span, st.prev)));
            lemma_holes_push(a, x);
            match spec {
                Some(ts) => {
                    assert(spec_text(spec).len() > 0);
                },
                None => {},
            }
            assert(holes(a.push(x)) =~= holes(st.results) + tok_args(t));
        },
    }
}

proof fn lemma_fold_holes(toks: Seq<Tok>, st: TsState)
    ensures
        holes(ts_fold(toks, st).results) == holes(st.results) + toks_args(toks),
    decreases toks,
{
    if toks.len() == 0 {
        assert(holes(st.results) + Seq::<usize>::empty() =~= holes(st.results));
    } else {
        lemma_step_holes(toks[0], st);
        lemma_fold_holes(toks.drop_first(), ts_step(toks[0], st));
        assert(holes(st.results) + tok_args(toks[0]) + toks_args(toks.drop_first()) =~= holes(
            st.results,
        ) + toks_args(toks));
    }
}

/// Constant folding: the arguments of `t!` are the interpolated expressions,
/// in order and through nested groups, except string literals without a
/// format spec, whose text is folded into the template.
pub proof fn law_folded_literals(toks: Seq<Tok>)
    ensures
        args_spec(toks) == toks_args(toks),
{
    let fold = ts_fold(toks, ts_init());
    lemma_fold_holes(toks, ts_init());
    assert(holes(ts_init().results) == Seq::<usize>::empty());
    assert(Seq::<usize>::empty() + toks_args(toks) =~= toks_args(toks));
    if fold.string.len() > 0 {
        lemma_holes_push(fold.results, Part::Text(fold.string));
    }
}

/// The expansion of a `t!` or `t_println!` call.
#[derive(Debug)]
pub enum Expansion {
    /// `String::from(text)`; for `t_println!`, `println!(text)`, where `text`
    /// is then a format string (braces doubled).
    Literal(String),
    /// `String::new()` (or `println!()`).
    Empty,
    /// `format!(text, args...)` (or `println!(text, args...)`).
    Format(String, Vec<usize>),
}

/// `r` is the expansion for the template `s` with the arguments `args`.
pub open spec fn expands_to(r: Expansion, s: Seq<char>, args: Seq<usize>) -> bool {
    match r {
        Expansion::Literal(lit) => args.len() == 0 && s.len() > 0 && lit@ == s,
        Expansion::Empty => args.len() == 0 && s.len() == 0,
        Expansion::Format(lit, a) => args.len() > 0 && lit@ == s && a@ == args,
    }
}

/// `r` is the `println!` expansion for the template `s` with the arguments
/// `args`: the text alone goes to `println!` as a format string, so its braces
/// are doubled there.
pub open spec fn println_expands_to(r: Expansion, s: Seq<char>, args: Seq<usize>) -> bool {
    match r {
        Expansion::Literal(lit) => args.len() == 0 && s.len() > 0 && lit@ == escape(s),
        Expansion::Empty => args.len() == 0 && s.len() == 0,
        Expansion::Format(lit, a) => args.len() > 0 && lit@ == s && a@ == args,
    }
}

fn choose_expansion(s: String, args: Vec<usize>) -> (r: Expansion)
    requires
        args@.len() > 0 ==> s@.len() > 0,
    ensures
        expands_to(r, s@, args@),
{
    let no_args = args.len() == 0;
    let no_text = s.as_str().unicode_len() == 0;
    if no_args && !no_text {
        Expansion::Literal(s)
    } else if no_args {
        Expansion::Empty
    } else {
        Expansion::Format(s, args)
    }
}

/// The expansion of `t!` for the tokens `toks` of a call on line `call_line`:
/// `String::new()` for no text, `String::from` for text alone, and `format!`
/// when the text interpolates expressions.
pub fn t(toks: &Vec<Tok>, call_line: usize) -> (r: Expansion)
    ensures
        expands_to(r, template_spec(toks@, call_line), args_spec(toks@)),
{
    let (s, args) = parse_t(toks, call_line);
    proof {
        if args@.len() > 0 {
            law_args_need_text(toks@, call_line);
        }
    }
    choose_expansion(s, args)
}

/// The expansion of `t_println!`: `println!` with the text of `t!`. Text
/// without arguments is written as a format string, its braces doubled, so
/// that `println!` prints the text of `t!` (see `law_println_prints_text`).
pub fn t_println(toks: &Vec<Tok>, call_line: usize) -> (r: Expansion)
    ensures
        println_expands_to(r, template_spec(toks@, call_line), args_spec(toks@)),
{
    let (s, args) = parse_t(toks, call_line);
    proof {
        if args@.len() > 0 {
            law_args_need_text(toks@, call_line);
        }
    }
    match choose_expansion(s, args) {
        Expansion::Literal(text) => {
            let mut v: Vec<char> = Vec::new();
            push_escaped(&mut v, text.as_str());
            Expansion::Literal(string_of(&v))
        },
        other => other,
    }
}

proof fn lemma_escape_concat(a: Seq<char>, b: Seq<char>)
    ensures
        escape(a + b) == escape(a) + escape(b),
    decreases b.len(),
{
    if b.len() == 0 {
        assert(a + b == a);
        assert(escape(a) + escape(b) == escape(a));
    } else {
        assert((a + b).drop_last() == a + b.drop_last());
        assert((a + b).last() == b.last());
        lemma_escape_concat(a, b.drop_last());
        assert(escape(a) + escape(b.drop_last()) + escape(seq![b.last()]) =~= escape(a) + escape(
            b,
        )) by {
            assert(seq![b.last()].drop_last() == Seq::<char>::empty());
            assert(seq![b.last()].last() == b.last());
            assert(escape(Seq::<char>::empty()) == Seq::<char>::empty());
        }
        assert(seq![b.last()].drop_last() == Seq::<char>::empty());
        assert(seq![b.last()].last() == b.last());
    }
}

/// Reading a format string gives back the text whose braces were doubled:
/// `println!(lit)` with the `lit` of `t_println!` prints the text of `t!`.
pub proof fn law_println_prints_text(s: Seq<char>)
    ensures
        unescape(escape(s)) == s,
    decreases s.len(),
{
    if s.len() > 0 {
        let c = s[0];
        let t = s.skip(1);
        assert(s == seq![c] + t);
        lemma_escape_concat(seq![c], t);
        assert(seq![c].drop_last() == Seq::<char>::empty());
        assert(seq![c].last() == c);
        assert(escape(Seq::<char>::empty()) == Seq::<char>::empty());
        law_println_prints_text(t);
        let x = escape(s);
        if c == '{' {
            assert(x == seq!['{', '{'] + escape(t));
            assert(x.skip(2) == escape(t));
        } else if c == '}' {
            assert(x == seq!['}', '}'] + escape(t));
            assert(x.skip(2) == escape(t));
        } else {
            assert(x == seq![c] + escape(t));
            assert(x.skip(1) == escape(t));
        }
    } else {
        assert(escape(s) == Seq::<char>::empty());
    }
}

} // verus!
