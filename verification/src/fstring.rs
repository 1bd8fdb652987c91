//! The `f!` expansion: reading a format string with `{expr}` placeholders and
//! `{{` / `}}` escapes.

use vstd::prelude::*;

use crate::template::Expansion;
use crate::text::{chars_of, string_of};
use crate::tokens::push_str;

verus! {

// ----------------------------------------------------------------------------
// The content of a placeholder
// ----------------------------------------------------------------------------

/// Opening braces minus closing braces in `s`.
pub open spec fn balance(s: Seq<char>) -> int
    decreases s.len(),
{
    if s.len() == 0 {
        0
    } else {
        balance(s.drop_last()) + if s.last() == '{' {
            1int
        } else if s.last() == '}' {
            -1int
        } else {
            0int
        }
    }
}

/// The nesting depth after reading `s[0..=k]`, starting inside one brace.
pub open spec fn depth_after(s: Seq<char>, k: int) -> int {
    1 + balance(s.take(k + 1))
}

/// `s[k]` is the brace that closes the one opened before `s`.
pub open spec fn closes_at(s: Seq<char>, k: int) -> bool {
    &&& 0 <= k < s.len()
    &&& depth_after(s, k) == 0
    &&& forall|j: int| 0 <= j < k ==> depth_after(s, j) > 0
}

/// The length of the content before the closing brace, or of all of `s`
/// when no brace closes.
pub open spec fn content_len(s: Seq<char>) -> int {
    if exists|k: int| closes_at(s, k) {
        choose|k: int| closes_at(s, k)
    } else {
        s.len() as int
    }
}

/// How much of `s` the content and its closing brace take.
pub open spec fn cut(s: Seq<char>) -> nat {
    let k = content_len(s);
    if 0 <= k < s.len() {
        (k + 1) as nat
    } else {
        s.len()
    }
}

pub open spec fn content_of(s: Seq<char>) -> Seq<char> {
    s.take(content_len(s))
}

pub open spec fn rest_of(s: Seq<char>) -> Seq<char> {
    s.skip(cut(s) as int)
}

proof fn lemma_closes_unique(s: Seq<char>, k: int)
    requires
        closes_at(s, k),
    ensures
        content_len(s) == k,
{
    let c = choose|k: int| closes_at(s, k);
    assert(closes_at(s, c));
    if c < k {
        assert(depth_after(s, c) > 0);
    } else if c > k {
        assert(depth_after(s, k) > 0);
    }
}

proof fn lemma_no_close(s: Seq<char>)
    requires
        forall|j: int| 0 <= j < s.len() ==> depth_after(s, j) > 0,
    ensures
        content_len(s) == s.len(),
{
    if exists|k: int| closes_at(s, k) {
        let c = choose|k: int| closes_at(s, k);
        assert(depth_after(s, c) > 0);
    }
}

/// Where the content of a placeholder ends in `s[start..]`: the index, from
/// `start`, of the brace that closes it, or the length of `s[start..]`.
fn content_end(s: &Vec<char>, start: usize) -> (k: usize)
    requires
        start <= s.len(),
    ensures
        k == content_len(s@.skip(start as int)),
        k <= s.len() - start,
{
    let ghost t = s@.skip(start as int);
    let mut open: usize = 0;
    let mut i: usize = 0;
    let n = s.len() - start;
    while i < n
        invariant_except_break
            n == t.len(),
            t == s@.skip(start as int),
            start + n == s.len(),
            open == balance(t.take(i as int)),
            open <= i,
            forall|j: int| 0 <= j < i ==> depth_after(t, j) > 0,
        invariant
            i <= n,
        ensures
            i < n ==> closes_at(t, i as int),
            i == n ==> forall|j: int| 0 <= j < t.len() ==> depth_after(t, j) > 0,
        decreases n - i,
    {
        let c = s[start + i];
        assert(c == t[i as int]);
        assert(t.take(i + 1).drop_last() == t.take(i as int));
        assert(t.take(i + 1).last() == c);
        if c == '}' && open == 0 {
            assert(depth_after(t, i as int) == 0);
            break;
        }
        if c == '{' {
            open += 1;
        } else if c == '}' {
            open -= 1;
        }
        assert(depth_after(t, i as int) > 0);
        i += 1;
    }
    proof {
        if i < n {
            lemma_closes_unique(t, i as int);
        } else {
            lemma_no_close(t);
        }
    }
    i
}

/// Splits the text after the `{` of a placeholder into what follows the
/// closing `}` and the content before it. Nested braces are counted; when no
/// brace closes, all of `input` is the content and nothing follows.
pub fn take_content(input: &str) -> (r: (String, String))
    ensures
        r.0@ == rest_of(input@),
        r.1@ == content_of(input@),
{
    let s = chars_of(input);
    let k = content_end(&s, 0);
    assert(s@.skip(0) == s@);
    let ghost c = cut(s@);
    let ex = if k < s.len() {
        k + 1
    } else {
        k
    };
    assert(ex == c);
    let mut rest: Vec<char> = Vec::new();
    let mut i = ex;
    while i < s.len()
        invariant
            ex <= i <= s.len(),
            rest@ == s@.subrange(ex as int, i as int),
        decreases s.len() - i,
    {
        rest.push(s[i]);
        assert(s@.subrange(ex as int, i + 1) == s@.subrange(ex as int, i as int).push(s@[i as int]));
        i += 1;
    }
    assert(s@.subrange(ex as int, s.len() as int) == s@.skip(ex as int));
    let mut content: Vec<char> = Vec::new();
    let mut j: usize = 0;
    while j < k
        invariant
            k <= s.len(),
            j <= k,
            content@ == s@.take(j as int),
        decreases k - j,
    {
        content.push(s[j]);
        assert(s@.take(j + 1) == s@.take(j as int).push(s@[j as int]));
        j += 1;
    }
    (string_of(&rest), string_of(&content))
}

// ----------------------------------------------------------------------------
// Reading a format string
// ----------------------------------------------------------------------------

/// A piece of a format string.
#[derive(Debug, PartialEq, Eq)]
pub enum Ty {
    /// `{{`
    BracketLeft,
    /// `}}`
    BracketRight,
    /// Text without braces.
    Str(String),
    /// A placeholder `{...}`, with the text between its braces.
    Expr(String),
}

/// A piece of a format string, as a value.
pub enum TyV {
    BracketLeft,
    BracketRight,
    Str(Seq<char>),
    Expr(Seq<char>),
}

impl View for Ty {
    type V = TyV;

    open spec fn view(&self) -> TyV {
        match self {
            Ty::BracketLeft => TyV::BracketLeft,
            Ty::BracketRight => TyV::BracketRight,
            Ty::Str(s) => TyV::Str(s@),
            Ty::Expr(s) => TyV::Expr(s@),
        }
    }
}

pub open spec fn ty_views(v: Seq<Ty>) -> Seq<TyV> {
    v.map_values(|t: Ty| t@)
}

/// The number of leading characters of `s` that are not braces.
pub open spec fn run_len(s: Seq<char>) -> nat
    decreases s.len(),
{
    if s.len() == 0 || s[0] == '{' || s[0] == '}' {
        0
    } else {
        1 + run_len(s.drop_first())
    }
}

/// The piece at the start of `s` and its length; `None` where `s` starts with
/// a `}` that is not doubled (or is empty).
pub open spec fn step(s: Seq<char>) -> Option<(TyV, nat)> {
    if s.len() >= 2 && s[0] == '{' && s[1] == '{' {
        Some((TyV::BracketLeft, 2))
    } else if s.len() >= 2 && s[0] == '}' && s[1] == '}' {
        Some((TyV::BracketRight, 2))
    } else if s.len() >= 1 && s[0] == '{' {
        Some((TyV::Expr(content_of(s.skip(1))), 1 + cut(s.skip(1))))
    } else if s.len() >= 1 && s[0] == '}' {
        None
    } else if s.len() >= 1 {
        Some((TyV::Str(s.take(run_len(s) as int)), run_len(s)))
    } else {
        None
    }
}

/// Reading `s` from `i` on, piece by piece: the pieces read, and where a
/// `}` that is not doubled stopped the reading, if one did.
pub open spec fn read(s: Seq<char>, i: int) -> (Seq<TyV>, Option<int>)
    decreases s.len() - i,
{
    if i < 0 || i >= s.len() {
        (seq![], None)
    } else {
        match step(s.skip(i)) {
            None => (seq![], Some(i)),
            Some((t, n)) => if n >= 1 && i + n <= s.len() {
                (seq![t] + read(s, i + n).0, read(s, i + n).1)
            } else {
                (seq![], None)
            },
        }
    }
}

/// What `parse_all` gives for `s`: its pieces, or the text left where the
/// reading failed (all of `s` when it is empty).
pub open spec fn parse_all_spec(s: Seq<char>) -> Result<Seq<TyV>, Seq<char>> {
    if s.len() == 0 {
        Err(s)
    } else {
        match read(s, 0).1 {
            Some(e) => Err(s.skip(e)),
            None => Ok(read(s, 0).0),
        }
    }
}

proof fn lemma_run_len(s: Seq<char>)
    ensures
        run_len(s) <= s.len(),
        forall|j: int| 0 <= j < run_len(s) ==> s[j] != '{' && s[j] != '}',
        run_len(s) < s.len() ==> (s[run_len(s) as int] == '{' || s[run_len(s) as int] == '}'),
    decreases s.len(),
{
    if s.len() > 0 && s[0] != '{' && s[0] != '}' {
        let t = s.drop_first();
        lemma_run_len(t);
        assert forall|j: int| 0 <= j < run_len(s) implies s[j] != '{' && s[j] != '}' by {
            if j > 0 {
                assert(s[j] == t[j - 1]);
            }
        }
    }
}

proof fn lemma_run_len_is(s: Seq<char>, k: int)
    requires
        0 <= k <= s.len(),
        forall|j: int| 0 <= j < k ==> s[j] != '{' && s[j] != '}',
        k == s.len() || s[k] == '{' || s[k] == '}',
    ensures
        run_len(s) == k,
    decreases k,
{
    if k > 0 {
        let t = s.drop_first();
        assert forall|j: int| 0 <= j < k - 1 implies t[j] != '{' && t[j] != '}' by {
            assert(t[j] == s[j + 1]);
        }
        lemma_run_len_is(t, k - 1);
    }
}

proof fn lemma_step_len(s: Seq<char>)
    requires
        s.len() > 0,
    ensures
        step(s) matches Some((_, n)) ==> 1 <= n <= s.len(),
{
    lemma_run_len(s);
}

/// `{{` at `s[i..]`.
pub fn parse_bracket_left(s: &Vec<char>, i: usize) -> (r: Option<(Ty, usize)>)
    requires
        i <= s.len(),
    ensures
        r is Some <==> (s.len() >= i + 2 && s@[i as int] == '{' && s@[i + 1] == '{'),
        r matches Some((t, n)) ==> t == Ty::BracketLeft && n == 2,
{
    if s.len() - i >= 2 && s[i] == '{' && s[i + 1] == '{' {
        Some((Ty::BracketLeft, 2))
    } else {
        None
    }
}

/// `}}` at `s[i..]`.
pub fn parse_bracket_right(s: &Vec<char>, i: usize) -> (r: Option<(Ty, usize)>)
    requires
        i <= s.len(),
    ensures
        r is Some <==> (s.len() >= i + 2 && s@[i as int] == '}' && s@[i + 1] == '}'),
        r matches Some((t, n)) ==> t == Ty::BracketRight && n == 2,
{
    if s.len() - i >= 2 && s[i] == '}' && s[i + 1] == '}' {
        Some((Ty::BracketRight, 2))
    } else {
        None
    }
}

/// The characters `s[a..b]`.
fn slice_chars(s: &Vec<char>, a: usize, b: usize) -> (r: Vec<char>)
    requires
        a <= b <= s.len(),
    ensures
        r@ == s@.subrange(a as int, b as int),
{
    let mut r: Vec<char> = Vec::new();
    let mut i = a;
    while i < b
        invariant
            a <= i <= b <= s.len(),
            r@ == s@.subrange(a as int, i as int),
        decreases b - i,
    {
        r.push(s[i]);
        assert(s@.subrange(a as int, i + 1) == s@.subrange(a as int, i as int).push(s@[i as int]));
        i += 1;
    }
    r
}

/// A placeholder `{...}` at `s[i..]`: its content and its length.
pub fn parse_expr(s: &Vec<char>, i: usize) -> (r: Option<(Ty, usize)>)
    requires
        i <= s.len(),
    ensures
        r is Some <==> (i < s.len() && s@[i as int] == '{'),
        r matches Some((t, n)) ==> (t@ == TyV::Expr(content_of(s@.skip(i + 1))) && n == 1 + cut(
            s@.skip(i + 1),
        )),
{
    if i == s.len() || s[i] != '{' {
        return None;
    }
    let k = content_end(s, i + 1);
    let ghost t = s@.skip(i + 1);
    let content = slice_chars(s, i + 1, i + 1 + k);
    assert(content@ == t.take(k as int));
    let n = if k < s.len() - (i + 1) {
        k + 2
    } else {
        k + 1
    };
    Some((Ty::Expr(string_of(&content)), n))
}

/// Why reading a piece failed: `Error` at the end of the input, where
/// reading stops; `Failure` at a `}` that is not doubled, which fails the
/// whole string.
#[derive(Debug, PartialEq, Eq)]
pub enum ParseFail {
    Error,
    Failure,
}

/// Text without braces at `s[i..]`: fails with `Failure` where `s[i]` is a
/// brace, and with `Error` at the end of the input.
pub fn parse_str(s: &Vec<char>, i: usize) -> (r: Result<(Ty, usize), ParseFail>)
    requires
        i <= s.len(),
    ensures
        r matches Err(ParseFail::Error) <==> i == s.len(),
        r matches Err(ParseFail::Failure) <==> (i < s.len() && (s@[i as int]
            == '{' || s@[i as int] == '}')),
        r matches Ok((t, n)) ==> (t@ == TyV::Str(s@.skip(i as int).take(
            run_len(s@.skip(i as int)) as int,
        )) && n == run_len(s@.skip(i as int))),
{
    if i == s.len() {
        return Err(ParseFail::Error);
    }
    if s[i] == '{' || s[i] == '}' {
        return Err(ParseFail::Failure);
    }
    let ghost t = s@.skip(i as int);
    let mut j = i;
    while j < s.len() && s[j] != '{' && s[j] != '}'
        invariant
            i <= j <= s.len(),
            t == s@.skip(i as int),
            forall|q: int| 0 <= q < j - i ==> t[q] != '{' && t[q] != '}',
        decreases s.len() - j,
    {
        j += 1;
    }
    proof {
        lemma_run_len_is(t, j - i);
    }
    let v = slice_chars(s, i, j);
    assert(v@ == t.take(j - i));
    Ok((Ty::Str(string_of(&v)), j - i))
}

/// The piece at `s[i..]` and its length: `{{`, `}}`, a placeholder, or text.
/// Fails with `Error` at the end of the input, and with `Failure` where a `}`
/// is not doubled.
pub fn parse(s: &Vec<char>, i: usize) -> (r: Result<(Ty, usize), ParseFail>)
    requires
        i <= s.len(),
    ensures
        r matches Ok((t, n)) ==> step(s@.skip(i as int)) == Some((t@, n as nat)),
        r matches Err(ParseFail::Error) <==> i == s.len(),
        r matches Err(ParseFail::Failure) <==> (i < s.len() && step(
            s@.skip(i as int),
        ) is None),
{
    let ghost t = s@.skip(i as int);
    if i == s.len() {
        return Err(ParseFail::Error);
    }
    assert(t.len() >= 1 && t[0] == s@[i as int]);
    assert(t.len() >= 2 ==> t[1] == s@[i + 1]);
    let left = parse_bracket_left(s, i);
    if let Some(x) = left {
        return Ok(x);
    }
    let right = parse_bracket_right(s, i);
    if let Some(x) = right {
        return Ok(x);
    }
    let expr = parse_expr(s, i);
    if let Some(x) = expr {
        assert(t.skip(1) == s@.skip(i + 1));
        return Ok(x);
    }
    parse_str(s, i)
}

/// Reads a format string into its pieces. Fails, with the text left from
/// there, at the first `}` that is not doubled, or on an empty string.
pub fn parse_all(input: &str) -> (r: Result<Vec<Ty>, String>)
    ensures
        r matches Ok(v) ==> parse_all_spec(input@) == Ok::<Seq<TyV>, Seq<char>>(ty_views(v@)),
        r matches Err(e) ==> parse_all_spec(input@) == Err::<Seq<TyV>, Seq<char>>(e@),
{
    let s = chars_of(input);
    if s.len() == 0 {
        assert(input@ =~= Seq::<char>::empty());
        return Err(String::new());
    }
    let mut out: Vec<Ty> = Vec::new();
    let mut i: usize = 0;
    while i < s.len()
        invariant_except_break
            s@ == input@,
            i <= s.len(),
            read(s@, 0).0 == ty_views(out@) + read(s@, i as int).0,
            read(s@, 0).1 == read(s@, i as int).1,
        ensures
            i <= s.len(),
            read(s@, 0).0 == ty_views(out@) + read(s@, i as int).0,
            read(s@, 0).1 == read(s@, i as int).1,
            i < s.len() ==> read(s@, i as int).1 == Some(i as int),
        decreases s.len() - i,
    {
        proof {
            lemma_step_len(s@.skip(i as int));
        }
        match parse(&s, i) {
            Err(_) => {
                break;
            },
            Ok((t, n)) => {
                let ghost tv = t@;
                let ghost before = ty_views(out@);
                out.push(t);
                assert(ty_views(out@) =~= before.push(tv));
                assert(before + read(s@, i as int).0 =~= ty_views(out@) + read(s@, i + n).0);
                i += n;
            },
        }
    }
    if i < s.len() {
        let rest = slice_chars(&s, i, s.len());
        assert(rest@ == s@.skip(i as int));
        Err(string_of(&rest))
    } else {
        assert(read(s@, i as int).0 == Seq::<TyV>::empty());
        assert(ty_views(out@) + Seq::<TyV>::empty() =~= ty_views(out@));
        Ok(out)
    }
}

/// The placeholder contents among the pieces `ts`, in order.
pub open spec fn contents(ts: Seq<TyV>) -> Seq<Seq<char>>
    decreases ts.len(),
{
    if ts.len() == 0 {
        seq![]
    } else {
        match ts[0] {
            TyV::Expr(c) => seq![c] + contents(ts.drop_first()),
            _ => contents(ts.drop_first()),
        }
    }
}

pub open spec fn string_views(v: Seq<String>) -> Seq<Seq<char>> {
    v.map_values(|x: String| x@)
}

/// The contents of the placeholders of a format string, in order, up to
/// where the reading stops.
pub fn placeholders(value: &str) -> (r: Vec<String>)
    ensures
        string_views(r@) == contents(read(value@, 0).0),
{
    let s = chars_of(value);
    let mut out: Vec<String> = Vec::new();
    let mut i: usize = 0;
    while i < s.len()
        invariant_except_break
            s@ == value@,
            i <= s.len(),
            contents(read(s@, 0).0) == string_views(out@) + contents(read(s@, i as int).0),
        ensures
            contents(read(s@, 0).0) == string_views(out@) + contents(read(s@, i as int).0),
            i < s.len() ==> read(s@, i as int).0 == Seq::<TyV>::empty(),
        decreases s.len() - i,
    {
        proof {
            lemma_step_len(s@.skip(i as int));
        }
        match parse(&s, i) {
            Err(_) => {
                break;
            },
            Ok((t, n)) => {
                let ghost rest = read(s@, i as int).0;
                assert(rest[0] == t@);
                assert(rest.drop_first() == read(s@, i + n).0);
                match t {
                    Ty::Expr(c) => {
                        let ghost before = string_views(out@);
                        let ghost cv = c@;
                        out.push(c);
                        assert(string_views(out@) =~= before.push(cv));
                        assert(before + contents(rest) =~= string_views(out@) + contents(
                            read(s@, i + n).0,
                        ));
                    },
                    _ => {},
                }
                i += n;
            },
        }
    }
    assert(contents(Seq::<TyV>::empty()) == Seq::<Seq<char>>::empty());
    assert(string_views(out@) + Seq::<Seq<char>>::empty() =~= string_views(out@));
    out
}

// ----------------------------------------------------------------------------
// The expansion of `f!`
// ----------------------------------------------------------------------------

/// Reading `s` from `i` on as `f!` does, the `k`-th placeholder and the later
/// ones taking the format specs `specs[k..]`: the pieces, each placeholder
/// holding its spec, or the position where the reading failed: a `}` that is
/// not doubled, or a placeholder whose expression did not parse (`None`).
pub open spec fn scan(s: Seq<char>, i: int, specs: Seq<Option<String>>, k: int) -> Result<
    Seq<TyV>,
    int,
>
    decreases s.len() - i,
{
    if i < 0 || i >= s.len() {
        Ok(seq![])
    } else {
        match step(s.skip(i)) {
            None => Err(i),
            Some((t, n)) => if n >= 1 && i + n <= s.len() {
                match t {
                    TyV::Expr(_) => if 0 <= k < specs.len() && specs[k] is Some {
                        match scan(s, i + n, specs, k + 1) {
                            Ok(r) => Ok(seq![TyV::Expr(specs[k].unwrap()@)] + r),
                            Err(e) => Err(e),
                        }
                    } else {
                        Err(i)
                    },
                    _ => match scan(s, i + n, specs, k) {
                        Ok(r) => Ok(seq![t] + r),
                        Err(e) => Err(e),
                    },
                }
            } else {
                Ok(seq![])
            },
        }
    }
}

/// What a piece contributes to the template; braces are written doubled when
/// the template goes to `format!`.
pub open spec fn ty_value(t: TyV, in_format: bool) -> Seq<char> {
    match t {
        TyV::BracketLeft => if in_format {
            seq!['{', '{']
        } else {
            seq!['{']
        },
        TyV::BracketRight => if in_format {
            seq!['}', '}']
        } else {
            seq!['}']
        },
        TyV::Str(x) => x,
        TyV::Expr(r) => seq!['{'] + r + seq!['}'],
    }
}

pub open spec fn values(ts: Seq<TyV>, in_format: bool) -> Seq<char>
    decreases ts.len(),
{
    if ts.len() == 0 {
        seq![]
    } else {
        values(ts.drop_last(), in_format) + ty_value(ts.last(), in_format)
    }
}

pub open spec fn count_exprs(ts: Seq<TyV>) -> nat
    decreases ts.len(),
{
    if ts.len() == 0 {
        0
    } else {
        count_exprs(ts.drop_last()) + if ts.last() is Expr {
            1nat
        } else {
            0nat
        }
    }
}

/// `r` is what `f!` gives for the format string `s` whose placeholders have
/// the format specs `specs` (`None` where the expression did not parse):
/// `String::new()` for an empty string; `String::from` when there is no
/// placeholder; `format!` with the expressions `0, 1, ...` otherwise; the
/// text left where the reading failed, on failure.
pub open spec fn f_expands_to(r: Result<Expansion, String>, s: Seq<char>, specs: Seq<
    Option<String>,
>) -> bool {
    match r {
        Ok(Expansion::Empty) => s.len() == 0,
        Ok(Expansion::Literal(lit)) => {
            &&& s.len() > 0
            &&& scan(s, 0, specs, 0) matches Ok(ts)
            &&& count_exprs(ts) == 0
            &&& lit@ == values(ts, false)
        },
        Ok(Expansion::Format(lit, args)) => {
            &&& s.len() > 0
            &&& scan(s, 0, specs, 0) matches Ok(ts)
            &&& count_exprs(ts) > 0
            &&& lit@ == values(ts, true)
            &&& args@ == Seq::new(count_exprs(ts), |j: int| j as usize)
        },
        Err(e) => {
            &&& s.len() > 0
            &&& scan(s, 0, specs, 0) matches Err(i)
            &&& e@ == s.skip(i)
        },
    }
}

pub open spec fn prepend(a: Seq<TyV>, r: Result<Seq<TyV>, int>) -> Result<Seq<TyV>, int> {
    match r {
        Ok(x) => Ok(a + x),
        Err(e) => Err(e),
    }
}

/// `s` read as the text of a format string: `{{` stands for `{`, `}}` for `}`.
pub open spec fn unescape(s: Seq<char>) -> Seq<char>
    decreases s.len(),
{
    if s.len() >= 2 && s[0] == '{' && s[1] == '{' {
        seq!['{'] + unescape(s.skip(2))
    } else if s.len() >= 2 && s[0] == '}' && s[1] == '}' {
        seq!['}'] + unescape(s.skip(2))
    } else if s.len() >= 1 {
        seq![s[0]] + unescape(s.skip(1))
    } else {
        seq![]
    }
}

proof fn lemma_values_concat(a: Seq<TyV>, b: Seq<TyV>, in_format: bool)
    ensures
        values(a + b, in_format) == values(a, in_format) + values(b, in_format),
        count_exprs(a + b) == count_exprs(a) + count_exprs(b),
    decreases b.len(),
{
    if b.len() == 0 {
        assert(a + b == a);
        assert(values(a, in_format) + Seq::<char>::empty() == values(a, in_format));
    } else {
        assert((a + b).drop_last() == a + b.drop_last());
        assert((a + b).last() == b.last());
        lemma_values_concat(a, b.drop_last(), in_format);
        assert(values(a, in_format) + values(b.drop_last(), in_format) + ty_value(
            b.last(),
            in_format,
        ) =~= values(a, in_format) + values(b, in_format));
    }
}

proof fn lemma_values_one(t: TyV, in_format: bool)
    ensures
        values(seq![t], in_format) == ty_value(t, in_format),
        count_exprs(seq![t]) == if t is Expr {
            1nat
        } else {
            0nat
        },
{
    assert(seq![t].drop_last() == Seq::<TyV>::empty());
    assert(seq![t].last() == t);
    assert(values(Seq::<TyV>::empty(), in_format) == Seq::<char>::empty());
    assert(count_exprs(Seq::<TyV>::empty()) == 0);
    assert(Seq::<char>::empty() + ty_value(t, in_format) == ty_value(t, in_format));
}

proof fn lemma_unescape_run(x: Seq<char>, n: int)
    requires
        0 <= n <= x.len(),
        forall|j: int| 0 <= j < n ==> x[j] != '{' && x[j] != '}',
    ensures
        unescape(x) == x.take(n) + unescape(x.skip(n)),
    decreases n,
{
    if n == 0 {
        assert(x.skip(0) == x);
        assert(x.take(0) + unescape(x) == unescape(x));
    } else {
        let y = x.skip(1);
        assert forall|j: int| 0 <= j < n - 1 implies y[j] != '{' && y[j] != '}' by {
            assert(y[j] == x[j + 1]);
        }
        lemma_unescape_run(y, n - 1);
        assert(y.skip(n - 1) == x.skip(n));
        assert(seq![x[0]] + (y.take(n - 1) + unescape(x.skip(n))) =~= x.take(n) + unescape(
            x.skip(n),
        ));
    }
}

proof fn lemma_scan_unescape(s: Seq<char>, i: int, specs: Seq<Option<String>>, k: int)
    requires
        0 <= i <= s.len(),
        scan(s, i, specs, k) is Ok,
        count_exprs(scan(s, i, specs, k)->Ok_0) == 0,
    ensures
        values(scan(s, i, specs, k)->Ok_0, false) == unescape(s.skip(i)),
    decreases s.len() - i,
{
    let x = s.skip(i);
    if i == s.len() {
        assert(x.len() == 0);
        assert(values(Seq::<TyV>::empty(), false) == Seq::<char>::empty());
    } else {
        lemma_step_len(x);
        lemma_run_len(x);
        let (t, n) = step(x)->Some_0;
        let rest = scan(s, i + n, specs, k)->Ok_0;
        match t {
            TyV::Expr(_) => {
                if 0 <= k < specs.len() && specs[k] is Some {
                    let r = scan(s, i + n, specs, k + 1)->Ok_0;
                    lemma_values_concat(seq![TyV::Expr(specs[k].unwrap()@)], r, false);
                    lemma_values_one(TyV::Expr(specs[k].unwrap()@), false);
                }
            },
            _ => {
                lemma_values_concat(seq![t], rest, false);
                lemma_values_one(t, false);
                lemma_scan_unescape(s, i + n, specs, k);
                assert(x.skip(n as int) == s.skip(i + n));
                match t {
                    TyV::Str(_) => {
                        lemma_unescape_run(x, n as int);
                    },
                    _ => {},
                }
            },
        }
    }
}

/// Escapes: for a format string without placeholders, `f!` gives the text
/// with each `{{` read as `{` and each `}}` as `}`.
pub proof fn law_escaped_braces(s: Seq<char>, specs: Seq<Option<String>>)
    requires
        scan(s, 0, specs, 0) is Ok,
        count_exprs(scan(s, 0, specs, 0)->Ok_0) == 0,
    ensures
        values(scan(s, 0, specs, 0)->Ok_0, false) == unescape(s),
{
    lemma_scan_unescape(s, 0, specs, 0);
    assert(s.skip(0) == s);
}

/// What `format!` writes for the template `t` when every argument writes
/// nothing: `{{` and `}}` as one brace each, a hole `{...}` (up to the first
/// `}`) as nothing, any other character as it is. `in_hole` is set inside a
/// hole.
pub open spec fn format_text(t: Seq<char>, in_hole: bool) -> Seq<char>
    decreases t.len(),
{
    if t.len() == 0 {
        seq![]
    } else if in_hole {
        format_text(t.skip(1), t[0] != '}')
    } else if t.len() >= 2 && t[0] == '{' && t[1] == '{' {
        seq!['{'] + format_text(t.skip(2), false)
    } else if t.len() >= 2 && t[0] == '}' && t[1] == '}' {
        seq!['}'] + format_text(t.skip(2), false)
    } else if t[0] == '{' {
        format_text(t.skip(1), true)
    } else {
        seq![t[0]] + format_text(t.skip(1), false)
    }
}

/// The format string `s` with each placeholder (a `{`, its content and the
/// brace that closes it) left out, and `{{` and `}}` read as one brace.
pub open spec fn without_placeholders(s: Seq<char>) -> Seq<char>
    decreases s.len(),
{
    if s.len() >= 2 && s[0] == '{' && s[1] == '{' {
        seq!['{'] + without_placeholders(s.skip(2))
    } else if s.len() >= 2 && s[0] == '}' && s[1] == '}' {
        seq!['}'] + without_placeholders(s.skip(2))
    } else if s.len() >= 1 && s[0] == '{' {
        without_placeholders(s.skip(1 + cut(s.skip(1)) as int))
    } else if s.len() >= 1 {
        seq![s[0]] + without_placeholders(s.skip(1))
    } else {
        seq![]
    }
}

/// No character of `r` is a brace.
pub open spec fn no_braces(r: Seq<char>) -> bool {
    forall|j: int| 0 <= j < r.len() ==> r[j] != '{' && r[j] != '}'
}

proof fn lemma_format_text_hole(r: Seq<char>, rest: Seq<char>)
    requires
        no_braces(r),
    ensures
        format_text(r + seq!['}'] + rest, true) == format_text(rest, false),
    decreases r.len(),
{
    let t = r + seq!['}'] + rest;
    if r.len() == 0 {
        assert(t.skip(1) =~= rest);
    } else {
        assert(t.skip(1) =~= r.skip(1) + seq!['}'] + rest);
        lemma_format_text_hole(r.skip(1), rest);
    }
}

proof fn lemma_format_text_run(x: Seq<char>, rest: Seq<char>)
    requires
        no_braces(x),
    ensures
        format_text(x + rest, false) == x + format_text(rest, false),
    decreases x.len(),
{
    let t = x + rest;
    if x.len() == 0 {
        assert(t =~= rest);
    } else {
        assert(t[0] == x[0]);
        assert(t.skip(1) =~= x.skip(1) + rest);
        lemma_format_text_run(x.skip(1), rest);
        assert(seq![x[0]] + (x.skip(1) + format_text(rest, false)) =~= x + format_text(rest, false));
    }
}

proof fn lemma_without_run(x: Seq<char>, n: int)
    requires
        0 <= n <= x.len(),
        forall|j: int| 0 <= j < n ==> x[j] != '{' && x[j] != '}',
    ensures
        without_placeholders(x) == x.take(n) + without_placeholders(x.skip(n)),
    decreases n,
{
    if n == 0 {
        assert(x.skip(0) == x);
        assert(x.take(0) + without_placeholders(x) == without_placeholders(x));
    } else {
        let y = x.skip(1);
        assert forall|j: int| 0 <= j < n - 1 implies y[j] != '{' && y[j] != '}' by {
            assert(y[j] == x[j + 1]);
        }
        lemma_without_run(y, n - 1);
        assert(y.skip(n - 1) == x.skip(n));
        assert(seq![x[0]] + (y.take(n - 1) + without_placeholders(x.skip(n))) =~= x.take(n)
            + without_placeholders(x.skip(n)));
    }
}

proof fn lemma_scan_without(s: Seq<char>, i: int, specs: Seq<Option<String>>, k: int)
    requires
        0 <= i <= s.len(),
        scan(s, i, specs, k) is Ok,
        forall|j: int| 0 <= j < specs.len() && specs[j] is Some ==> no_braces(#[trigger] specs[j].unwrap()@),
    ensures
        format_text(values(scan(s, i, specs, k)->Ok_0, true), false) == without_placeholders(s.skip(i)),
    decreases s.len() - i,
{
    let x = s.skip(i);
    if i == s.len() {
        assert(x.len() == 0);
        assert(values(Seq::<TyV>::empty(), true) == Seq::<char>::empty());
    } else {
        lemma_step_len(x);
        lemma_run_len(x);
        let (t, n) = step(x)->Some_0;
        assert(x.skip(n as int) == s.skip(i + n));
        match t {
            TyV::Expr(_) => {
                let sp = specs[k].unwrap()@;
                let r = scan(s, i + n, specs, k + 1)->Ok_0;
                let e = TyV::Expr(sp);
                lemma_values_concat(seq![e], r, true);
                lemma_values_one(e, true);
                lemma_scan_without(s, i + n, specs, k + 1);
                let vr = values(r, true);
                let w = seq!['{'] + sp + seq!['}'] + vr;
                assert(w =~= ty_value(e, true) + vr);
                if sp.len() > 0 {
                    assert(w[1] == sp[0]);
                }
                assert(w.skip(1) =~= sp + seq!['}'] + vr);
                lemma_format_text_hole(sp, vr);
                assert(x.skip(1).skip(cut(x.skip(1)) as int) =~= x.skip(1 + cut(x.skip(1)) as int));
            },
            TyV::Str(y) => {
                let r = scan(s, i + n, specs, k)->Ok_0;
                lemma_values_concat(seq![t], r, true);
                lemma_values_one(t, true);
                lemma_scan_without(s, i + n, specs, k);
                lemma_format_text_run(y, values(r, true));
                lemma_without_run(x, n as int);
            },
            TyV::BracketLeft => {
                let r = scan(s, i + n, specs, k)->Ok_0;
                lemma_values_concat(seq![t], r, true);
                lemma_values_one(t, true);
                lemma_scan_without(s, i + n, specs, k);
                let w = seq!['{', '{'] + values(r, true);
                assert(w.skip(2) =~= values(r, true));
            },
            TyV::BracketRight => {
                let r = scan(s, i + n, specs, k)->Ok_0;
                lemma_values_concat(seq![t], r, true);
                lemma_values_one(t, true);
                lemma_scan_without(s, i + n, specs, k);
                let w = seq!['}', '}'] + values(r, true);
                assert(w.skip(2) =~= values(r, true));
            },
        }
    }
}

/// Text between placeholders: the `format!` template that `f!` gives keeps the
/// text of the format string as it is. Writing each hole of the template as
/// nothing gives the format string with each placeholder left out (`{{` and
/// `}}` read as braces on both sides), for format specs without braces.
pub proof fn law_text_between_placeholders(
    r: Result<Expansion, String>,
    s: Seq<char>,
    specs: Seq<Option<String>>,
)
    requires
        f_expands_to(r, s, specs),
        forall|j: int| 0 <= j < specs.len() && specs[j] is Some ==> no_braces(#[trigger] specs[j].unwrap()@),
    ensures
        r matches Ok(Expansion::Format(lit, _)) ==> format_text(lit@, false) == without_placeholders(s),
{
    if r matches Ok(Expansion::Format(_, _)) {
        lemma_scan_without(s, 0, specs, 0);
        assert(s.skip(0) == s);
    }
}

impl Ty {
    /// What the piece contributes to the template (see `ty_value`).
    pub fn value(&self, in_format: bool) -> (r: String)
        ensures
            r@ == ty_value(self@, in_format),
    {
        let mut v: Vec<char> = Vec::new();
        match self {
            Ty::BracketLeft => {
                v.push('{');
                if in_format {
                    v.push('{');
                }
            },
            Ty::BracketRight => {
                v.push('}');
                if in_format {
                    v.push('}');
                }
            },
            Ty::Str(x) => {
                push_str(&mut v, x.as_str());
            },
            Ty::Expr(x) => {
                v.push('{');
                push_str(&mut v, x.as_str());
                v.push('}');
            },
        }
        assert(v@ =~= ty_value(self@, in_format));
        string_of(&v)
    }

    /// Whether the piece is a placeholder.
    pub fn is_expr(&self) -> (r: bool)
        ensures
            r == (self@ is Expr),
    {
        match self {
            Ty::Expr(_) => true,
            _ => false,
        }
    }
}

/// The expansion of `f!` for the format string `value`, `specs[k]` being the
/// format spec (`":"` and what follows the expression, or nothing) of the
/// `k`-th placeholder, or `None` where its expression did not parse.
pub fn f(value: &str, specs: &Vec<Option<String>>) -> (r: Result<Expansion, String>)
    ensures
        f_expands_to(r, value@, specs@),
{
    let s = chars_of(value);
    if s.len() == 0 {
        return Ok(Expansion::Empty);
    }
    let mut tys: Vec<Ty> = Vec::new();
    let mut i: usize = 0;
    let mut k: usize = 0;
    while i < s.len()
        invariant
            s@ == value@,
            i <= s.len(),
            k <= i,
            scan(s@, 0, specs@, 0) == prepend(ty_views(tys@), scan(s@, i as int, specs@, k as int)),
        decreases s.len() - i,
    {
        proof {
            lemma_step_len(s@.skip(i as int));
        }
        match parse(&s, i) {
            Err(_) => {
                let rest = slice_chars(&s, i, s.len());
                assert(rest@ == s@.skip(i as int));
                return Err(string_of(&rest));
            },
            Ok((t, n)) => {
                let ghost before = ty_views(tys@);
                if t.is_expr() {
                    if k < specs.len() && specs[k].is_some() {
                        let r = match &specs[k] {
                            Some(x) => x.clone(),
                            None => String::new(),
                        };
                        let ghost rv = r@;
                        tys.push(Ty::Expr(r));
                        assert(ty_views(tys@) =~= before.push(TyV::Expr(rv)));
                        k += 1;
                    } else {
                        let rest = slice_chars(&s, i, s.len());
                        assert(rest@ == s@.skip(i as int));
                        return Err(string_of(&rest));
                    }
                } else {
                    let ghost tv = t@;
                    tys.push(t);
                    assert(ty_views(tys@) =~= before.push(tv));
                }
                assert(before.push(ty_views(tys@).last()) == ty_views(tys@));
                proof {
                    let x = ty_views(tys@).last();
                    match scan(s@, i + n, specs@, k as int) {
                        Ok(r) => {
                            assert(before + (seq![x] + r) =~= before.push(x) + r);
                        },
                        Err(_) => {},
                    }
                }
                i += n;
            },
        }
    }
    assert(ty_views(tys@) + Seq::<TyV>::empty() =~= ty_views(tys@));
    let ghost ts = ty_views(tys@);
    let n = tys.len();
    let mut count: usize = 0;
    for j in 0..n
        invariant
            n == tys.len(),
            ts == ty_views(tys@),
            count == count_exprs(ts.take(j as int)),
            count <= j,
    {
        assert(ts.take(j + 1).drop_last() == ts.take(j as int));
        assert(ts.take(j + 1).last() == tys@[j as int]@);
        if tys[j].is_expr() {
            count += 1;
        }
    }
    assert(ts.take(n as int) == ts);
    let in_format = count > 0;
    let mut out: Vec<char> = Vec::new();
    for j in 0..n
        invariant
            n == tys.len(),
            ts == ty_views(tys@),
            out@ == values(ts.take(j as int), in_format),
    {
        assert(ts.take(j + 1).drop_last() == ts.take(j as int));
        assert(ts.take(j + 1).last() == tys@[j as int]@);
        let v = tys[j].value(in_format);
        push_str(&mut out, v.as_str());
    }
    let lit = string_of(&out);
    if count == 0 {
        Ok(Expansion::Literal(lit))
    } else {
        let mut args: Vec<usize> = Vec::new();
        for j in 0..count
            invariant
                args@ == Seq::new(j as nat, |q: int| q as usize),
        {
            args.push(j);
            assert(args@ =~= Seq::new((j + 1) as nat, |q: int| q as usize));
        }
        Ok(Expansion::Format(lit, args))
    }
}

/// When `f!` reads `s` without failing, the placeholders from the `k`-th on
/// all have format specs.
proof fn lemma_scan_specs(s: Seq<char>, i: int, specs: Seq<Option<String>>, k: int)
    requires
        0 <= i <= s.len(),
        0 <= k <= specs.len(),
        scan(s, i, specs, k) is Ok,
    ensures
        k + count_exprs(scan(s, i, specs, k)->Ok_0) <= specs.len(),
        forall|j: int|
            k <= j < k + count_exprs(scan(s, i, specs, k)->Ok_0) ==> (#[trigger] specs[j]) is Some,
    decreases s.len() - i,
{
    let x = s.skip(i);
    if i == s.len() {
        assert(count_exprs(Seq::<TyV>::empty()) == 0);
    } else {
        lemma_step_len(x);
        let (t, n) = step(x)->Some_0;
        match t {
            TyV::Expr(_) => {
                let r = scan(s, i + n, specs, k + 1)->Ok_0;
                let e = TyV::Expr(specs[k].unwrap()@);
                lemma_scan_specs(s, i + n, specs, k + 1);
                lemma_values_concat(seq![e], r, false);
                lemma_values_one(e, false);
            },
            _ => {
                let r = scan(s, i + n, specs, k)->Ok_0;
                lemma_scan_specs(s, i + n, specs, k);
                lemma_values_concat(seq![t], r, false);
                lemma_values_one(t, false);
            },
        }
    }
}

/// The expansion of `f!` for the format string `value`: each placeholder's
/// content is parsed with `syn` as an expression followed by its format spec,
/// and `f` is applied to the specs. `r.1[k]` is the expression of the `k`-th
/// placeholder (`None` where it did not parse); argument `j` of a `format!`
/// expansion is `r.1[j]`.
pub fn f_literal(value: &str) -> (r: (Result<Expansion, String>, Vec<Option<syn::Expr>>))
    ensures
        r.1@.len() == contents(read(value@, 0).0).len(),
        exists|specs: Seq<Option<String>>|
            {
                &&& specs.len() == r.1@.len()
                &&& forall|i: int| 0 <= i < specs.len() ==> (specs[i] is Some <==> r.1@[i] is Some)
                &&& f_expands_to(r.0, value@, specs)
            },
        r.0 matches Ok(Expansion::Format(_, a)) ==> forall|j: int|
            0 <= j < a@.len() ==> a@[j] < r.1@.len() && r.1@[a@[j] as int] is Some,
{
    let contents = placeholders(value);
    let (specs, exprs, _) = crate::syntax::parse_placeholders(&contents);
    let r = f(value, &specs);
    proof {
        assert(string_views(contents@).len() == contents@.len());
        if r matches Ok(Expansion::Format(_, _)) {
            lemma_scan_specs(value@, 0, specs@, 0);
        }
    }
    (r, exprs)
}

} // verus!
