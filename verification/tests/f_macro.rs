use f_string::fstring::{f, parse, parse_all, parse_expr, parse_str, placeholders, take_content, ParseFail, Ty};
use f_string::template::Expansion;

fn s(x: &str) -> String {
    String::from(x)
}

#[test]
fn take_content_stops_at_matching_brace() {
    assert_eq!(take_content("a}rest"), (s("rest"), s("a")));
    assert_eq!(take_content("Point {x: 2, y: 2}:#?}!"), (s("!"), s("Point {x: 2, y: 2}:#?")));
    assert_eq!(take_content("}"), (s(""), s("")));
}

#[test]
fn take_content_unclosed_takes_everything() {
    assert_eq!(take_content("x + {1"), (s(""), s("x + {1")));
    assert_eq!(take_content(""), (s(""), s("")));
}

#[test]
fn take_content_counts_characters_not_bytes() {
    assert_eq!(take_content("\u{e9}\u{e9}}\u{fc}"), (s("\u{fc}"), s("\u{e9}\u{e9}")));
}

#[test]
fn parse_all_pieces() {
    assert_eq!(
        parse_all("x: {p.x}, y: {p.y}"),
        Ok(vec![
            Ty::Str(s("x: ")),
            Ty::Expr(s("p.x")),
            Ty::Str(s(", y: ")),
            Ty::Expr(s("p.y")),
        ])
    );
    assert_eq!(parse_all("{{}}"), Ok(vec![Ty::BracketLeft, Ty::BracketRight]));
    assert_eq!(parse_all("{x"), Ok(vec![Ty::Expr(s("x"))]));
}

#[test]
fn parse_all_failures() {
    assert_eq!(parse_all(""), Err(s("")));
    assert_eq!(parse_all("a } b"), Err(s("} b")));
    assert_eq!(parse_all("}"), Err(s("}")));
}

#[test]
fn placeholders_in_order() {
    assert_eq!(placeholders("x: {p.x}, y: {p.y}"), vec![s("p.x"), s("p.y")]);
    assert_eq!(placeholders("{a} } {b}"), vec![s("a")]);
    assert_eq!(placeholders("no placeholders {{}}"), Vec::<String>::new());
}

#[test]
fn f_plain_text_is_string_from() {
    assert!(matches!(f("This is string", &vec![]), Ok(Expansion::Literal(x)) if x == "This is string"));
}

#[test]
fn f_empty_is_string_new() {
    assert!(matches!(f("", &vec![]), Ok(Expansion::Empty)));
}

#[test]
fn f_escaped_braces() {
    // f!("{{}}") gives "{}"; f!("{{braces}}") gives "{braces}".
    assert!(matches!(f("{{}}", &vec![]), Ok(Expansion::Literal(x)) if x == "{}"));
    assert!(matches!(f("{{braces}}", &vec![]), Ok(Expansion::Literal(x)) if x == "{braces}"));
}

#[test]
fn f_placeholders_become_format_args() {
    match f("x: {p.x}, y: {p.y}", &vec![Some(s("")), Some(s(""))]) {
        Ok(Expansion::Format(t, args)) => {
            assert_eq!(t, "x: {}, y: {}");
            assert_eq!(args, vec![0, 1]);
        }
        other => panic!("{:?}", other),
    }
    match f("{std::time::SystemTime::now():?}", &vec![Some(s(":?"))]) {
        Ok(Expansion::Format(t, args)) => {
            assert_eq!(t, "{:?}");
            assert_eq!(args, vec![0]);
        }
        other => panic!("{:?}", other),
    }
}

#[test]
fn f_braces_doubled_beside_placeholders() {
    match f("{{{x}}}", &vec![Some(s(""))]) {
        Ok(Expansion::Format(t, args)) => {
            assert_eq!(t, "{{{}}}");
            assert_eq!(args, vec![0]);
        }
        other => panic!("{:?}", other),
    }
}

#[test]
fn f_failures_report_the_rest() {
    assert_eq!(f("a } b", &vec![]).err(), Some(s("} b")));
    // An expression that does not parse fails at its placeholder, before a
    // later stray brace.
    assert_eq!(f("a {1 +} } b", &vec![None]).err(), Some(s("{1 +} } b")));
    // A placeholder without a spec given fails too.
    assert_eq!(f("{x}", &vec![]).err(), Some(s("{x}")));
}

#[test]
fn ty_value_in_and_out_of_format() {
    assert_eq!(Ty::BracketLeft.value(true), "{{");
    assert_eq!(Ty::BracketLeft.value(false), "{");
    assert_eq!(Ty::BracketRight.value(true), "}}");
    assert_eq!(Ty::Expr(s(":#x")).value(true), "{:#x}");
    assert_eq!(Ty::Str(s("ab")).value(true), "ab");
    assert!(Ty::Expr(s("")).is_expr());
    assert!(!Ty::Str(s("")).is_expr());
}

#[test]
fn f_escapes_read_as_single_braces() {
    assert!(matches!(f("a{{b}}c}}{{", &vec![]), Ok(Expansion::Literal(x)) if x == "a{b}c}{"));
}

#[test]
fn parse_str_kinds_of_failure() {
    let v: Vec<char> = "ab{".chars().collect();
    assert_eq!(parse_str(&v, 0), Ok((Ty::Str(s("ab")), 2)));
    assert_eq!(parse_str(&v, 2), Err(ParseFail::Failure));
    assert_eq!(parse_str(&v, 3), Err(ParseFail::Error));
    assert_eq!(parse_expr(&v, 3), None);
    assert_eq!(parse(&v, 3), Err(ParseFail::Error));
    let w: Vec<char> = "}x".chars().collect();
    assert_eq!(parse(&w, 0), Err(ParseFail::Failure));
    assert_eq!(parse(&w, 1), Ok((Ty::Str(s("x")), 1)));
}

fn expr_text(e: &syn::Expr) -> String {
    quote::ToTokens::to_token_stream(e).to_string()
}

#[test]
fn f_literal_parses_placeholders() {
    let (r, exprs) = f_string::fstring::f_literal("x: {p.x}, y: {p.y:>4}");
    match r {
        Ok(Expansion::Format(t, args)) => {
            assert_eq!(t, "x: {}, y: {:>4}");
            assert_eq!(args, vec![0, 1]);
        }
        other => panic!("{:?}", other),
    }
    let texts: Vec<String> = exprs.iter().map(|e| expr_text(e.as_ref().unwrap())).collect();
    assert_eq!(texts, vec![s("p . x"), s("p . y")]);
}

#[test]
fn f_literal_nested_braces_and_spec() {
    let (r, exprs) = f_string::fstring::f_literal("{Point {x: 2, y: 2}:#?}");
    assert!(matches!(r, Ok(Expansion::Format(t, a)) if t == "{:#?}" && a == vec![0]));
    assert_eq!(exprs.len(), 1);
    let (r, _) = f_string::fstring::f_literal("{{}}");
    assert!(matches!(r, Ok(Expansion::Literal(t)) if t == "{}"));
}

#[test]
fn f_literal_expression_that_does_not_parse() {
    let (r, exprs) = f_string::fstring::f_literal("a {1 +} b");
    assert_eq!(r.err(), Some(s("{1 +} b")));
    assert_eq!(exprs.len(), 1);
    assert!(exprs[0].is_none());
    let (r, _) = f_string::fstring::f_literal("{}");
    assert_eq!(r.err(), Some(s("{}")));
}
