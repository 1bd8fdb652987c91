//! Reading Rust syntax with `syn` and `proc_macro2`: the expression of a
//! placeholder and the tokens after it, tokens into the library's model, and
//! the input of `t!` and `f!`.

use vstd::prelude::*;

use crate::tokens;
use crate::fstring::{contents, f_expands_to, f_literal, read};
use crate::template::{id_range, lemma_toks_ids_push, lemma_toks_args_within, tok_ids, toks_args, toks_ids, Expansion, Tok};
use crate::tokens::{layout, Delim, Pos, RawTok};

verus! {

#[verifier::external_type_specification]
#[verifier::external_body]
pub struct ExExpr(syn::Expr);

#[verifier::external_type_specification]
#[verifier::external_body]
pub struct ExSynError(syn::Error);

#[verifier::external_type_specification]
#[verifier::external_body]
pub struct ExParseBuffer<'a>(syn::parse::ParseBuffer<'a>);

#[verifier::external_type_specification]
#[verifier::external_body]
pub struct ExTokenStream(proc_macro2::TokenStream);

#[verifier::external_type_specification]
#[verifier::external_body]
pub struct ExTokenTree(proc_macro2::TokenTree);

#[verifier::external_type_specification]
#[verifier::external_body]
pub struct ExDelimiter(proc_macro2::Delimiter);

/// `ParseBuffer::parse::<syn::Expr>`: reads an expression from the stream.
/// Nothing is stated of the result.
#[verifier::external_body]
fn read_expr(input: syn::parse::ParseStream) -> Result<syn::Expr, syn::Error> {
    input.parse::<syn::Expr>()
}

/// `ParseBuffer::parse::<proc_macro2::TokenStream>`: takes the rest of the
/// stream. Nothing is stated of the result.
#[verifier::external_body]
fn read_rest(input: syn::parse::ParseStream) -> Result<proc_macro2::TokenStream, syn::Error> {
    input.parse::<proc_macro2::TokenStream>()
}

/// Reads a placeholder's content: an expression, then whatever tokens follow
/// it (the `:` and the format spec, if there is one).
pub fn expr_then_rest(input: syn::parse::ParseStream) -> Result<
    (syn::Expr, proc_macro2::TokenStream),
    syn::Error,
> {
    let expr = read_expr(input)?;
    let rest = read_rest(input)?;
    Ok((expr, rest))
}

/// `syn::parse::Parser::parse_str` with `expr_then_rest`: lexes `content`
/// and reads it as an expression followed by the rest. Nothing is stated of
/// the result: whether it parses is up to `syn`, and the tokens carry spans
/// that depend on the process.
#[verifier::external_body]
fn parse_placeholder(content: &str) -> Result<(syn::Expr, proc_macro2::TokenStream), syn::Error> {
    syn::parse::Parser::parse_str(expr_then_rest, content)
}

/// `TokenStream`'s `IntoIterator`: the token trees of `ts`, in order.
/// Nothing is stated of the result.
#[verifier::external_body]
fn stream_trees(ts: &proc_macro2::TokenStream) -> Vec<proc_macro2::TokenTree> {
    ts.clone().into_iter().collect()
}

/// `TokenTree::span`, with its `start` and `end`, as a span of the model.
/// Nothing is stated of the result.
#[verifier::external_body]
fn tree_span(tt: &proc_macro2::TokenTree) -> tokens::Span {
    let (a, b) = (tt.span().start(), tt.span().end());
    tokens::Span { start: Pos { line: a.line, column: a.column }, end: Pos { line: b.line, column: b.column } }
}

/// `TokenTree`'s `to_string`: the text of a leaf. Nothing is stated of the
/// result.
#[verifier::external_body]
fn tree_text(tt: &proc_macro2::TokenTree) -> String {
    tt.to_string()
}

/// A group's delimiter and tokens (`Group::delimiter`, `Group::stream`);
/// `None` for a leaf. Nothing is stated of the result.
#[verifier::external_body]
fn group_parts(tt: &proc_macro2::TokenTree) -> Option<(proc_macro2::Delimiter, proc_macro2::TokenStream)> {
    match tt {
        proc_macro2::TokenTree::Group(g) => Some((g.delimiter(), g.stream())),
        _ => None,
    }
}

/// `Group::span_close`, as a span of the model; `None` for a leaf. Nothing is
/// stated of the result.
#[verifier::external_body]
fn group_close(tt: &proc_macro2::TokenTree) -> Option<tokens::Span> {
    match tt {
        proc_macro2::TokenTree::Group(g) => {
            let (a, b) = (g.span_close().start(), g.span_close().end());
            Some(tokens::Span { start: Pos { line: a.line, column: a.column }, end: Pos { line: b.line, column: b.column } })
        },
        _ => None,
    }
}

/// A `proc_macro2::Delimiter` as a `Delim`.
#[verifier::external_body]
fn delim_of(d: proc_macro2::Delimiter) -> Delim {
    match d {
        proc_macro2::Delimiter::Parenthesis => Delim::Parenthesis,
        proc_macro2::Delimiter::Brace => Delim::Brace,
        proc_macro2::Delimiter::Bracket => Delim::Bracket,
        proc_macro2::Delimiter::None => Delim::NoDelim,
    }
}

/// The token trees of `ts` in the model, groups down to `depth` levels of
/// nesting (tokens lexed from `n` characters nest fewer than `n` deep). A
/// group's `first` span is that of its first token, or of its closing
/// delimiter when it is empty.
pub fn raw_tokens(ts: &proc_macro2::TokenStream, depth: usize) -> (r: Vec<RawTok>)
    decreases depth,
{
    let trees = stream_trees(ts);
    let mut out: Vec<RawTok> = Vec::new();
    for i in 0..trees.len() {
        let tt = &trees[i];
        let span = tree_span(tt);
        match group_parts(tt) {
            Some((d, inner)) => {
                let inner_trees = stream_trees(&inner);
                let first = if inner_trees.len() > 0 {
                    tree_span(&inner_trees[0])
                } else {
                    match group_close(tt) {
                        Some(c) => c,
                        None => span,
                    }
                };
                let toks = if depth > 0 {
                    raw_tokens(&inner, depth - 1)
                } else {
                    Vec::new()
                };
                out.push(RawTok::Group { delim: delim_of(d), span, first, inner: toks });
            },
            None => {
                out.push(RawTok::Leaf { text: tree_text(tt), span });
            },
        }
    }
    out
}

/// Parses the content of each placeholder: `Some` with the expression, the
/// tokens after it (the `:` and the format spec, if there are any) and their
/// text laid out by `to_string`, or `None` where the expression does not
/// parse. The spec of a placeholder is exactly the layout of its tokens.
pub fn parse_placeholders(contents: &Vec<String>) -> (r: (
    Vec<Option<String>>,
    Vec<Option<syn::Expr>>,
    Vec<Option<Vec<RawTok>>>,
))
    ensures
        r.0@.len() == contents@.len(),
        r.1@.len() == contents@.len(),
        r.2@.len() == contents@.len(),
        forall|i: int| 0 <= i < contents@.len() ==> (r.0@[i] is Some <==> r.1@[i] is Some),
        forall|i: int| 0 <= i < contents@.len() ==> (r.2@[i] is Some <==> r.1@[i] is Some),
        forall|i: int|
            #![trigger r.2@[i]]
            0 <= i < contents@.len() && r.2@[i] is Some ==> r.0@[i] is Some && r.0@[i].unwrap()@
                == layout(r.2@[i].unwrap()@, None),
{
    let mut specs: Vec<Option<String>> = Vec::new();
    let mut exprs: Vec<Option<syn::Expr>> = Vec::new();
    let mut rests: Vec<Option<Vec<RawTok>>> = Vec::new();
    for k in 0..contents.len()
        invariant
            specs@.len() == k,
            exprs@.len() == k,
            rests@.len() == k,
            forall|i: int| 0 <= i < k ==> (specs@[i] is Some <==> exprs@[i] is Some),
            forall|i: int| 0 <= i < k ==> (rests@[i] is Some <==> exprs@[i] is Some),
            forall|i: int|
                #![trigger rests@[i]]
                0 <= i < k && rests@[i] is Some ==> specs@[i] is Some && specs@[i].unwrap()@
                    == layout(rests@[i].unwrap()@, None),
    {
        let content = &contents[k];
        match parse_placeholder(content.as_str()) {
            Ok((expr, rest)) => {
                let toks = raw_tokens(&rest, content.as_str().unicode_len());
                specs.push(Some(crate::tokens::to_string(&toks)));
                exprs.push(Some(expr));
                rests.push(Some(toks));
            },
            Err(_) => {
                specs.push(None);
                exprs.push(None);
                rests.push(None);
            },
        }
    }
    (specs, exprs, rests)
}

// ----------------------------------------------------------------------------
// Reading the input of `t!` and `f!`
// ----------------------------------------------------------------------------

/// `ParseBuffer::is_empty`. Nothing is stated of the result.
#[verifier::external_body]
fn stream_empty(input: syn::parse::ParseStream) -> bool {
    input.is_empty()
}

/// `ParseBuffer::parse::<syn::token::Colon>`: reads a `:`. Nothing is
/// stated of the result.
#[verifier::external_body]
fn read_colon(input: syn::parse::ParseStream) -> Result<(), syn::Error> {
    match input.parse::<syn::token::Colon>() {
        Ok(_) => Ok(()),
        Err(e) => Err(e),
    }
}

/// Reads the content of a brace group of `t!`: an expression, then, when
/// anything follows, a `:` and the tokens of the format spec.
pub fn expr_colon_spec(input: syn::parse::ParseStream) -> Result<
    (syn::Expr, Option<proc_macro2::TokenStream>),
    syn::Error,
> {
    let expr = read_expr(input)?;
    if stream_empty(input) {
        Ok((expr, None))
    } else {
        read_colon(input)?;
        let rest = read_rest(input)?;
        Ok((expr, Some(rest)))
    }
}

/// `syn::parse::Parser::__parse_scoped` with `expr_colon_spec` on the tokens
/// of the brace group `tt`, scoped at its closing brace as `syn::braced!`
/// scopes a group's content (so an expression cut short is reported there);
/// an error too where tokens are left over. Nothing is stated of the result.
#[verifier::external_body]
fn parse_interp(tt: &proc_macro2::TokenTree) -> Result<
    (syn::Expr, Option<proc_macro2::TokenStream>),
    syn::Error,
> {
    match tt {
        proc_macro2::TokenTree::Group(g) => syn::parse::Parser::__parse_scoped(expr_colon_spec, g.span_close(), g.stream()),
        other => syn::parse::Parser::parse2(expr_colon_spec, proc_macro2::TokenStream::from(other.clone())),
    }
}

/// The value of `e` when it is a string literal (`syn::LitStr::value`).
/// Nothing is stated of the result.
#[verifier::external_body]
fn str_lit_of(e: &syn::Expr) -> Option<String> {
    match e {
        syn::Expr::Lit(syn::ExprLit { lit: syn::Lit::Str(s), .. }) => Some(s.value()),
        _ => None,
    }
}

/// `syn::parse2::<syn::LitStr>` and `LitStr::value`: the value of the string
/// literal that `input` is. Nothing is stated of the result.
#[verifier::external_body]
fn lit_str_value(input: &proc_macro2::TokenStream) -> Result<String, syn::Error> {
    match syn::parse2::<syn::LitStr>(input.clone()) {
        Ok(lit) => Ok(lit.value()),
        Err(e) => Err(e),
    }
}

/// Whether `tt` is an identifier.
#[verifier::external_body]
fn is_ident(tt: &proc_macro2::TokenTree) -> bool {
    match tt {
        proc_macro2::TokenTree::Ident(_) => true,
        _ => false,
    }
}

/// A punctuation's character (`Punct::as_char`) and whether it is joined to
/// the next token (`Spacing::Joint`); `None` for another token.
#[verifier::external_body]
fn punct_of(tt: &proc_macro2::TokenTree) -> Option<(char, bool)> {
    match tt {
        proc_macro2::TokenTree::Punct(p) => Some((
            p.as_char(),
            match p.spacing() {
                proc_macro2::Spacing::Joint => true,
                proc_macro2::Spacing::Alone => false,
            },
        )),
        _ => None,
    }
}

/// `syn::Lifetime::span` of the lifetime made of the apostrophe `a` and the
/// identifier `b`, as a span of the model. Nothing is stated of the result.
#[verifier::external_body]
fn lifetime_span(a: &proc_macro2::TokenTree, b: &proc_macro2::TokenTree) -> tokens::Span {
    let s = match b {
        proc_macro2::TokenTree::Ident(i) => syn::Lifetime { apostrophe: a.span(), ident: i.clone() }.span(),
        _ => a.span(),
    };
    let (x, y) = (s.start(), s.end());
    tokens::Span { start: Pos { line: x.line, column: x.column }, end: Pos { line: y.line, column: y.column } }
}

/// Whether `syn` reads through the group `tt`: an invisible group that is
/// empty or starts with an identifier or with such a group; where `stream` is
/// set (a parse stream looking for a delimited group), also one that starts
/// with a delimited group.
fn transparent(tt: &proc_macro2::TokenTree, depth: usize, stream: bool) -> bool
    decreases depth,
{
    match group_parts(tt) {
        Some((d, inner)) => {
            if !matches!(delim_of(d), Delim::NoDelim) {
                return false;
            }
            let trees = stream_trees(&inner);
            if trees.len() == 0 || is_ident(&trees[0]) {
                return true;
            }
            match group_parts(&trees[0]) {
                Some((d2, _)) => {
                    if !matches!(delim_of(d2), Delim::NoDelim) {
                        stream
                    } else {
                        depth > 0 && transparent(&trees[0], depth - 1, stream)
                    }
                },
                None => false,
            }
        },
        None => false,
    }
}

/// The token trees of `ts` with the invisible groups that `syn` reads
/// through opened, down to `depth` levels (`stream` as in `transparent`).
fn flatten(ts: &proc_macro2::TokenStream, depth: usize, stream: bool) -> Vec<proc_macro2::TokenTree>
    decreases depth,
{
    let mut trees = stream_trees(ts);
    let mut out: Vec<proc_macro2::TokenTree> = Vec::new();
    while trees.len() > 0
        decreases trees.len(),
    {
        let tt = trees.remove(0);
        if depth > 0 && transparent(&tt, depth, stream) {
            match group_parts(&tt) {
                Some((_, inner)) => {
                    let mut sub = flatten(&inner, depth - 1, stream);
                    out.append(&mut sub);
                },
                None => {
                    out.push(tt);
                },
            }
        } else {
            out.push(tt);
        }
    }
    out
}

/// The text `'` followed by `ident`.
fn lifetime_text(ident: &String) -> String {
    let mut v: Vec<char> = Vec::new();
    v.push('\'');
    crate::tokens::push_str(&mut v, ident.as_str());
    crate::text::string_of(&v)
}

/// The first of `trees`, when it is an apostrophe joined to an identifier that
/// is the second: the lifetime leaf they make.
fn lifetime_at(trees: &Vec<proc_macro2::TokenTree>) -> (r: Option<RawTok>)
    ensures
        r is Some ==> trees@.len() >= 2,
{
    if trees.len() >= 2 && is_ident(&trees[1]) {
        match punct_of(&trees[0]) {
            Some((c, joint)) => {
                if c == '\'' && joint {
                    let text = lifetime_text(&tree_text(&trees[1]));
                    return Some(RawTok::Leaf { text, span: lifetime_span(&trees[0], &trees[1]) });
                }
            },
            None => {},
        }
    }
    None
}

/// Whether `tt` is an apostrophe, which `syn`'s cursor reads only as the
/// start of a lifetime.
fn is_apostrophe(tt: &proc_macro2::TokenTree) -> bool {
    match punct_of(tt) {
        Some((c, _)) => c == '\'',
        None => false,
    }
}

/// The tokens of `ts` as `syn`'s cursor reads them one by one: invisible
/// groups read through where `syn` does, a lifetime as one leaf, a group's
/// `first` span that of the token the cursor starts its content at. `None`
/// where an apostrophe does not start a lifetime: the cursor reads no token
/// there.
fn cursor_tokens(ts: &proc_macro2::TokenStream, depth: usize) -> Option<Vec<RawTok>>
    decreases depth,
{
    let mut trees = flatten(ts, depth, false);
    let mut out: Vec<RawTok> = Vec::new();
    while trees.len() > 0
        decreases trees.len(),
    {
        match lifetime_at(&trees) {
            Some(leaf) => {
                trees.remove(0);
                trees.remove(0);
                out.push(leaf);
            },
            None => {
                let tt = trees.remove(0);
                let tok = cursor_tree(&tt, depth)?;
                out.push(tok);
            },
        }
    }
    Some(out)
}

/// One token tree as `syn`'s cursor reads it (see `cursor_tokens`).
fn cursor_tree(tt: &proc_macro2::TokenTree, depth: usize) -> Option<RawTok>
    decreases depth, 0usize,
{
    if is_apostrophe(tt) {
        return None;
    }
    let span = tree_span(tt);
    match group_parts(tt) {
        Some((d, inner)) => {
            let inner_trees = stream_trees(&inner);
            let first = if inner_trees.len() > 0 {
                tree_span(&inner_trees[0])
            } else {
                match group_close(tt) {
                    Some(c) => c,
                    None => span,
                }
            };
            let toks = if depth > 0 {
                cursor_tokens(&inner, depth - 1)?
            } else {
                Vec::new()
            };
            Some(RawTok::Group { delim: delim_of(d), span, first, inner: toks })
        },
        None => Some(RawTok::Leaf { text: tree_text(tt), span }),
    }
}

/// A brace group of `t!`: an interpolation naming the expression it holds,
/// which goes at the end of `exprs`.
fn read_interp(tt: &proc_macro2::TokenTree, exprs: &mut Vec<syn::Expr>) -> (r: Result<Tok, syn::Error>)
    requires
        old(exprs)@.len() < usize::MAX,
    ensures
        r is Ok ==> final(exprs)@.len() == old(exprs)@.len() + 1,
        r is Err ==> final(exprs)@.len() == old(exprs)@.len(),
        r matches Ok(t) ==> tok_ids(t) == seq![old(exprs)@.len() as usize],
{
    let (expr, spec) = parse_interp(tt)?;
    let str_lit = str_lit_of(&expr);
    let spec_toks = match spec {
        Some(ts) => Some(raw_tokens(&ts, usize::MAX)),
        None => None,
    };
    let id = exprs.len();
    exprs.push(expr);
    Ok(Tok::Interp { span: tree_span(tt), expr: id, str_lit, spec: spec_toks })
}

/// The tokens of `t!` input `ts` as `syn`'s parse stream reads them:
/// parenthesis and bracket groups are read again, brace groups are
/// interpolations whose expressions go at the end of `exprs` in source order,
/// anything else is written out as text.
fn read_ts(ts: &proc_macro2::TokenStream, exprs: &mut Vec<syn::Expr>, depth: usize) -> (r: Result<
    Vec<Tok>,
    syn::Error,
>)
    ensures
        final(exprs)@.len() >= old(exprs)@.len(),
        r matches Ok(toks) ==> toks_ids(toks@) == id_range(
            old(exprs)@.len(),
            (final(exprs)@.len() - old(exprs)@.len()) as nat,
        ),
    decreases depth,
{
    let start = exprs.len();
    let mut trees = flatten(ts, depth, true);
    let mut out: Vec<Tok> = Vec::new();
    assert(toks_ids(out@) =~= id_range(start as nat, 0));
    while trees.len() > 0
        invariant
            exprs@.len() >= start,
            start == old(exprs)@.len(),
            toks_ids(out@) == id_range(start as nat, (exprs@.len() - start) as nat),
        decreases trees.len(),
    {
        let mid = exprs.len();
        let tok: Tok;
        match lifetime_at(&trees) {
            Some(leaf) => {
                trees.remove(0);
                trees.remove(0);
                tok = Tok::Plain(leaf);
            },
            None => {
                let tt = trees.remove(0);
                match group_parts(&tt) {
                    Some((d, inner)) => {
                        let delim = delim_of(d);
                        match delim {
                            Delim::Parenthesis | Delim::Bracket => {
                                let inner_trees = stream_trees(&inner);
                                let first = if inner_trees.len() > 0 {
                                    tree_span(&inner_trees[0])
                                } else {
                                    match group_close(&tt) {
                                        Some(c) => c,
                                        None => tree_span(&tt),
                                    }
                                };
                                let toks = if depth > 0 {
                                    read_ts(&inner, exprs, depth - 1)?
                                } else {
                                    Vec::new()
                                };
                                let span = tree_span(&tt);
                                assert(tok_ids(Tok::Nested { delim, span, first, inner: toks }) == toks_ids(toks@));
                                tok = Tok::Nested { delim, span, first, inner: toks };
                            },
                            Delim::Brace => {
                                if exprs.len() == usize::MAX {
                                    return Err(error_here("too many interpolations"));
                                }
                                tok = read_interp(&tt, exprs)?;
                            },
                            Delim::NoDelim => {
                                tok = plain(&tt, depth)?;
                            },
                        }
                    },
                    None => {
                        tok = plain(&tt, depth)?;
                    },
                }
            },
        }
        let ghost before = out@;
        out.push(tok);
        proof {
            lemma_toks_ids_push(before, out@.last());
            assert(out@.last() == tok);
            assert(id_range(start as nat, (mid - start) as nat) + id_range(mid as nat, (exprs@.len() - mid) as nat)
                =~= id_range(start as nat, (exprs@.len() - start) as nat));
        }
    }
    Ok(out)
}

/// `syn::Error::new` at the call site of the macro, with `message`.
#[verifier::external_body]
fn error_here(message: &str) -> syn::Error {
    syn::Error::new(proc_macro2::Span::call_site(), message)
}

/// `syn::Error::new` at the span `syn` reports for the token `tt` (the
/// opening delimiter of a group), with `message`.
#[verifier::external_body]
fn error_at(tt: &proc_macro2::TokenTree, message: &str) -> syn::Error {
    match tt {
        proc_macro2::TokenTree::Group(g) => syn::Error::new(g.span_open(), message),
        other => syn::Error::new(other.span(), message),
    }
}

/// A token of `t!` input that is written out as text: as `syn`'s cursor reads
/// it, or the error `syn` gives where it reads no token there.
fn plain(tt: &proc_macro2::TokenTree, depth: usize) -> (r: Result<Tok, syn::Error>)
    ensures
        r matches Ok(t) ==> t is Plain,
{
    match cursor_tree(tt, depth) {
        Some(raw) => Ok(Tok::Plain(raw)),
        None => Err(error_at(tt, "Unknown type")),
    }
}

/// Reads the input of `t!` / `t_println!`: the tokens, and the expressions
/// the interpolations name: the `k`-th interpolation in source order names
/// `exprs[k]`, so every argument of the expansion is an index into `exprs`.
/// Fails with the error `syn` gives for a brace group that does not hold an
/// expression (optionally followed by `:` and a format spec), or for an
/// apostrophe that starts no lifetime.
pub fn read_t(input: &proc_macro2::TokenStream) -> (r: Result<(Vec<Tok>, Vec<syn::Expr>), syn::Error>)
    ensures
        r matches Ok((toks, exprs)) ==> {
            &&& toks_ids(toks@) == id_range(0, exprs@.len())
            &&& forall|j: int| 0 <= j < toks_args(toks@).len() ==> toks_args(toks@)[j] < exprs@.len()
        },
{
    let mut exprs: Vec<syn::Expr> = Vec::new();
    let toks = read_ts(input, &mut exprs, usize::MAX)?;
    proof {
        assert forall|j: int| 0 <= j < toks_ids(toks@).len() implies toks_ids(toks@)[j] < exprs@.len() by {}
        lemma_toks_args_within(toks@, exprs@.len());
    }
    Ok((toks, exprs))
}

/// What `f_literal` gives for the format string `value`.
pub open spec fn f_literal_post(
    value: Seq<char>,
    res: Result<Expansion, String>,
    exprs: Seq<Option<syn::Expr>>,
) -> bool {
    &&& exprs.len() == contents(read(value, 0).0).len()
    &&& exists|specs: Seq<Option<String>>|
        {
            &&& specs.len() == exprs.len()
            &&& forall|i: int| 0 <= i < specs.len() ==> (specs[i] is Some <==> exprs[i] is Some)
            &&& f_expands_to(res, value, specs)
        }
    &&& res matches Ok(Expansion::Format(_, a)) ==> forall|j: int|
        0 <= j < a@.len() ==> a@[j] < exprs.len() && exprs[a@[j] as int] is Some
}

/// Reads the input of `f!`, a string literal, and expands it with
/// `f_literal`; fails with the error `syn` gives where the input is not a
/// string literal.
pub fn f_input(input: &proc_macro2::TokenStream) -> (r: Result<
    (Result<Expansion, String>, Vec<Option<syn::Expr>>),
    syn::Error,
>)
    ensures
        r matches Ok((res, exprs)) ==> exists|value: Seq<char>| f_literal_post(value, res, exprs@),
{
    let value = lit_str_value(input)?;
    let (res, exprs) = f_literal(value.as_str());
    assert(f_literal_post(value@, res, exprs@));
    Ok((res, exprs))
}

} // verus!
