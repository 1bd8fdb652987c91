use std::str::FromStr;

use f_string::syntax::{f_input, read_t};
use f_string::template::{t, t_println, Expansion, Tok};
use proc_macro2::{Delimiter, TokenStream, TokenTree};
use quote::ToTokens;

/// The tokens inside a macro call `name!(...)` and the line of the call.
fn call_input(src: &str) -> (TokenStream, usize) {
    let ts = TokenStream::from_str(src).expect("lexes");
    let mut it = ts.into_iter();
    let name = it.next().expect("name");
    let line = name.span().start().line;
    it.next().expect("!");
    match it.next() {
        Some(TokenTree::Group(g)) => (g.stream(), line),
        _ => panic!("no group"),
    }
}

/// Reads the source of a macro call `name!(...)`: the tokens inside, the line
/// of the call, and the expressions the interpolations name.
fn call(src: &str) -> (Vec<Tok>, usize, Vec<syn::Expr>) {
    let (input, line) = call_input(src);
    let (toks, exprs) = read_t(&input).expect("reads");
    (toks, line, exprs)
}

fn expr_text(e: &syn::Expr) -> String {
    e.to_token_stream().to_string()
}

fn parsed(src: &str) -> String {
    expr_text(&syn::parse_str::<syn::Expr>(src).unwrap())
}

/// What `t!` expands to, with the argument expressions as text.
fn expand(src: &str) -> (String, Vec<String>, bool) {
    let (toks, line, exprs) = call(src);
    match t(&toks, line) {
        Expansion::Empty => (String::new(), vec![], false),
        Expansion::Literal(s) => (s, vec![], false),
        Expansion::Format(s, args) => (s, args.iter().map(|&i| expr_text(&exprs[i])).collect(), true),
    }
}

/// Formats a template whose placeholders are all `{}` with the given values.
fn render(template: &str, vals: &[String]) -> String {
    let mut out = String::new();
    let mut it = vals.iter();
    let cs: Vec<char> = template.chars().collect();
    let mut i = 0;
    while i < cs.len() {
        if cs[i] == '{' && i + 1 < cs.len() && cs[i + 1] == '{' {
            out.push('{');
            i += 2;
        } else if cs[i] == '}' && i + 1 < cs.len() && cs[i + 1] == '}' {
            out.push('}');
            i += 2;
        } else if cs[i] == '{' && i + 1 < cs.len() && cs[i + 1] == '}' {
            out.push_str(it.next().expect("value"));
            i += 2;
        } else {
            out.push(cs[i]);
            i += 1;
        }
    }
    out
}

// ---------------------------------------------------------------------------
// The tests of `t!`.
// ---------------------------------------------------------------------------

#[test]
fn pure_text() {
    assert_eq!(expand("t!()"), (String::new(), vec![], false));
    assert_eq!(expand("t!(Hello)"), (String::from("Hello"), vec![], false));
    assert_eq!(expand("t!(Hello, World!)"), (String::from("Hello, World!"), vec![], false));
    assert_eq!(expand("t!(A( B) C[D ] E)"), (String::from("A( B) C[D ] E"), vec![], false));
    assert_eq!(
        expand(
            "t!(
            First line.
            Second Line.
        )"
        ),
        (String::from("First line.\nSecond Line."), vec![], false)
    )
}

#[test]
fn ident_format() {
    let a = 1;
    let b = 2f32;
    let c = String::from("C");
    let d = "d";
    let vals = |names: &[&str]| -> Vec<String> {
        names
            .iter()
            .map(|n| match *n {
                "a" => a.to_string(),
                "b" => b.to_string(),
                "c" => c.to_string(),
                _ => d.to_string(),
            })
            .collect()
    };
    let check = |src: &str, expected: String| {
        let (s, args, is_format) = expand(src);
        assert!(is_format);
        let names: Vec<&str> = args.iter().map(|x| x.as_str()).collect();
        assert_eq!(render(&s, &vals(&names)), expected);
    };
    check("t!({ a })", format!("{a}"));
    check("t!({ b })", format!("{b}"));
    check("t!({ c })", format!("{c}"));
    check("t!({ d })", format!("{d}"));
    check("t!({ a } { b } { c } { d })", format!("{a} {b} {c} {d}"));
    check("t!({ a }{ b } { c }{ d })", format!("{a}{b} {c}{d}"));
    assert_eq!(expand("t!({ a } { b } { c } { d })").0, "{} {} {} {}");
    assert_eq!(expand("t!({ a }{ b } { c }{ d })").0, "{}{} {}{}");
}

#[test]
fn expr_format() {
    #[derive(Debug)]
    struct Point {
        x: i32,
        y: i32,
    }

    impl Point {
        pub fn new(x: i32, y: i32) -> Self {
            Self { x, y }
        }
    }

    let (s, args, _) = expand("t!(1 + 1 = { 1 + 1 })");
    assert_eq!((s.as_str(), args.clone()), ("1 + 1 = {}", vec![parsed("1 + 1")]));
    assert_eq!(render(&s, &[(1 + 1).to_string()]), format!("1 + 1 = {}", 1 + 1));

    let (s, args, _) = expand("t!({ 100:#x })");
    assert_eq!((s.as_str(), args), ("{:#x}", vec![parsed("100")]));

    let p = Point::new(-1, 2);
    let (s, args, _) = expand("t!(p = Point(x = { p.x }, y = { p.y }))");
    assert_eq!((s.as_str(), args), ("p = Point(x = {}, y = {})", vec![parsed("p.x"), parsed("p.y")]));
    assert_eq!(
        render(&s, &[p.x.to_string(), p.y.to_string()]),
        format!("p = Point(x = {}, y = {})", p.x, p.y)
    );

    let (s, args, _) = expand("t!({Point::new(-3, 2).y:010})");
    assert_eq!((s.as_str(), args), ("{:010}", vec![parsed("Point::new(-3, 2).y")]));
    assert_eq!(format!("{:010}", Point::new(-3, 2).y), "0000000002");

    let (s, args, _) = expand("t!({Point::new(2, -3):#?})");
    assert_eq!((s.as_str(), args), ("{:#?}", vec![parsed("Point::new(2, -3)")]));

    let (s, args, _) = expand(
        r#"t! {
        <div>
        <p class="title">Point</p>
        <span>x={p.x}</span>
        <span>y={p.y}</span>
        </div>
    }"#,
    );
    assert_eq!(
        (s.as_str(), args),
        (
            "<div>\n<p class=\"title\">Point</p>\n<span>x={}</span>\n<span>y={}</span>\n</div>",
            vec![parsed("p.x"), parsed("p.y")]
        )
    );
    assert_eq!(
        render(&s, &[p.x.to_string(), p.y.to_string()]),
        format!("<div>\n<p class=\"title\">Point</p>\n<span>x={}</span>\n<span>y={}</span>\n</div>", p.x, p.y)
    );
}

// ---------------------------------------------------------------------------
// Scenarios from the documentation, and edge cases.
// ---------------------------------------------------------------------------

#[test]
fn doc_multi_line_is_dedented() {
    let src = "t!(
    Hello
    World
)";
    assert_eq!(expand(src), (String::from("Hello\nWorld"), vec![], false));
}

#[test]
fn doc_relative_indentation_is_kept() {
    let src = "t!(
    Hello
      indented
    World
)";
    assert_eq!(expand(src).0, "Hello\n  indented\nWorld");
}

#[test]
fn doc_comment_workaround_folds_string() {
    assert_eq!(expand(r#"t!(https:{"//example.com"})"#), (String::from("https://example.com"), vec![], false));
}

#[test]
fn doc_string_literal_is_folded() {
    assert_eq!(expand(r#"t!(Hello, {"world"}!)"#), (String::from("Hello, world!"), vec![], false));
    let (s, args, is_format) = expand("t!(Hello, {name}!)");
    assert!(is_format);
    assert_eq!((s.as_str(), args), ("Hello, {}!", vec![parsed("name")]));
}

#[test]
fn folded_brace_is_escaped_for_format() {
    // A literal "{" folded into a template that goes to format! is doubled.
    let (s, args, is_format) = expand(r#"t!({"{"} {x})"#);
    assert!(is_format);
    assert_eq!((s.as_str(), args), ("{{ {}", vec![parsed("x")]));
    // Without arguments it stays single.
    assert_eq!(expand(r#"t!({"{"})"#), (String::from("{"), vec![], false));
}

#[test]
fn string_literal_with_spec_is_an_argument() {
    let (s, args, _) = expand(r#"t!({"Hi":-^10})"#);
    assert_eq!((s.as_str(), args), ("{:-^10}", vec![parsed("\"Hi\"")]));
}

#[test]
fn spec_tokens_keep_their_spacing() {
    let (s, _, _) = expand("t!({100:0width$})");
    assert_eq!(s, "{:0width$}");
}

#[test]
fn lifetime_is_one_token() {
    assert_eq!(expand("t!(x: &'a str)").0, "x: &'a str");
}

#[test]
fn t_println_matches_t() {
    let (toks, line, _) = call("t_println!(Hello, {name}!)");
    match t_println(&toks, line) {
        Expansion::Format(s, args) => {
            assert_eq!(s, "Hello, {}!");
            assert_eq!(args, vec![0]);
        }
        other => panic!("{:?}", other),
    }
    let (toks, line, _) = call("t_println!()");
    assert!(matches!(t_println(&toks, line), Expansion::Empty));
    let (toks, line, _) = call("t_println!(Hi)");
    assert!(matches!(t_println(&toks, line), Expansion::Literal(s) if s == "Hi"));
}

#[test]
fn t_println_text_alone_is_a_format_string() {
    // t!({ "{" }) gives "{"; println! needs it written "{{" to print "{".
    assert_eq!(expand(r#"t!({ "{" })"#), (String::from("{"), vec![], false));
    let (toks, line, _) = call(r#"t_println!({ "{" } x { "}" })"#);
    assert!(matches!(t_println(&toks, line), Expansion::Literal(s) if s == "{{ x }}"));
}

#[test]
fn first_token_on_later_line_is_indented_before_dedent() {
    // The first token is on the line after the call; the text is dedented to it.
    let src = "t!(
        a
          b
    )";
    assert_eq!(expand(src).0, "a\n  b");
    // On the same line as the call, later lines keep their indentation
    // relative to a first line that has none.
    let src2 = "t!(a
      b)";
    assert_eq!(expand(src2).0, "a\n      b");
}

#[test]
fn example_nested_groups_keep_spacing() {
    assert_eq!(expand("t!( a(a x b ) )").0, "a(a x b )");
}

/// Wraps the first token of `ts` in an invisible group, as a `macro_rules!`
/// fragment arrives.
fn wrap_first(ts: TokenStream) -> TokenStream {
    let mut trees: Vec<TokenTree> = ts.into_iter().collect();
    let first = trees.remove(0);
    let sp = first.span();
    let mut g = proc_macro2::Group::new(Delimiter::None, TokenStream::from(first));
    g.set_span(sp);
    let mut out = TokenStream::from(TokenTree::Group(g));
    out.extend(trees);
    out
}

#[test]
fn invisible_group_around_identifier_is_read_through() {
    let ts = TokenStream::from_str("hello world").unwrap();
    let line = ts.clone().into_iter().next().unwrap().span().start().line;
    let (toks, _) = read_t(&wrap_first(ts)).expect("reads");
    assert!(matches!(t(&toks, line), Expansion::Literal(s) if s == "hello world"));
}

#[test]
fn invisible_group_around_punctuation_is_written_as_a_group() {
    let ts = TokenStream::from_str("+ x").unwrap();
    let line = ts.clone().into_iter().next().unwrap().span().start().line;
    let (toks, _) = read_t(&wrap_first(ts)).expect("reads");
    assert!(matches!(t(&toks, line), Expansion::Literal(s) if s == "\u{2205}+\u{2205} x"));
}

#[test]
fn interpolations_are_numbered_in_source_order() {
    let (toks, line, exprs) = call("t!({a} ({b} [{c}]) {d})");
    let texts: Vec<String> = exprs.iter().map(expr_text).collect();
    assert_eq!(texts, vec![parsed("a"), parsed("b"), parsed("c"), parsed("d")]);
    match t(&toks, line) {
        Expansion::Format(s, args) => {
            assert_eq!(s, "{} ({} [{}]) {}");
            assert_eq!(args, vec![0, 1, 2, 3]);
        }
        other => panic!("{:?}", other),
    }
}

#[test]
fn folded_literal_still_takes_its_place_in_order() {
    let (toks, line, exprs) = call(r#"t!({a} {"b"} {c})"#);
    assert_eq!(exprs.len(), 3);
    match t(&toks, line) {
        Expansion::Format(s, args) => {
            assert_eq!(s, "{} b {}");
            assert_eq!(args, vec![0, 2]);
            assert_eq!(expr_text(&exprs[2]), parsed("c"));
        }
        other => panic!("{:?}", other),
    }
}

#[test]
fn brace_group_without_expression_is_an_error() {
    let (input, _) = call_input("t!(x {})");
    assert!(read_t(&input).is_err());
    let (input, _) = call_input("t!({a b})");
    assert!(read_t(&input).is_err());
    let (input, _) = call_input("t!(( {a b} ))");
    assert!(read_t(&input).is_err());
    let (input, _) = call_input("t!({a: >4})");
    assert!(read_t(&input).is_ok());
}

#[test]
fn apostrophe_without_lifetime_is_an_error() {
    let mut ts = TokenStream::from_str("a").unwrap();
    ts.extend([TokenTree::Punct(proc_macro2::Punct::new('\'', proc_macro2::Spacing::Alone))]);
    match read_t(&ts) {
        Err(e) => assert_eq!(e.to_string(), "Unknown type"),
        Ok(_) => panic!("read"),
    }
}

#[test]
fn invisible_group_around_parenthesis_is_read_through() {
    let ts = TokenStream::from_str("({x}) y").unwrap();
    let line = ts.clone().into_iter().next().unwrap().span().start().line;
    let (toks, exprs) = read_t(&wrap_first(ts)).expect("reads");
    assert_eq!(exprs.len(), 1);
    match t(&toks, line) {
        Expansion::Format(s, args) => {
            assert_eq!(s, "({}) y");
            assert_eq!(args, vec![0]);
        }
        other => panic!("{:?}", other),
    }
}

#[test]
fn f_input_reads_a_string_literal() {
    let ts = TokenStream::from_str(r#""x = {x}, {{}}""#).unwrap();
    match f_input(&ts) {
        Ok((Ok(Expansion::Format(s, args)), exprs)) => {
            assert_eq!(s, "x = {}, {{}}");
            assert_eq!(args, vec![0]);
            assert_eq!(exprs.len(), 1);
            assert_eq!(expr_text(exprs[0].as_ref().unwrap()), parsed("x"));
        }
        Ok(other) => panic!("{:?}", other.0),
        Err(e) => panic!("{}", e),
    }
}

#[test]
fn f_input_refuses_other_tokens() {
    let ts = TokenStream::from_str("x").unwrap();
    assert!(f_input(&ts).is_err());
}

#[test]
fn expression_cut_short_is_reported_at_the_closing_brace() {
    let (input, _) = call_input("t!(x {a +\n   })");
    let e = read_t(&input).err().expect("error");
    let at = e.span().start();
    assert_eq!((at.line, at.column), (2, 3));
}
