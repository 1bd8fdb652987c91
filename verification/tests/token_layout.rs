use f_string::tokens::{sub_end_span, sub_span, sub_start_span, to_string, Delim, Pos, RawTok, Span};

fn sp(l1: usize, c1: usize, l2: usize, c2: usize) -> Span {
    Span { start: Pos { line: l1, column: c1 }, end: Pos { line: l2, column: c2 } }
}

fn leaf(t: &str, s: Span) -> RawTok {
    RawTok::Leaf { text: String::from(t), span: s }
}

#[test]
fn span_differences_saturate() {
    assert_eq!(sub_span(sp(3, 7, 3, 9), sp(1, 2, 1, 4)), (2, 3));
    assert_eq!(sub_span(sp(1, 0, 1, 1), sp(2, 5, 2, 6)), (0, 0));
    assert_eq!(sub_start_span(sp(1, 6, 1, 7), sp(1, 4, 1, 9)), (0, 2));
    assert_eq!(sub_end_span(sp(1, 4, 1, 9), sp(1, 6, 1, 7)), (0, 2));
}

#[test]
fn layout_adjacent_and_spaced() {
    let toks = vec![leaf("#", sp(1, 0, 1, 1)), leaf("x", sp(1, 1, 1, 2))];
    assert_eq!(to_string(&toks), "#x");
    let toks = vec![leaf("a", sp(1, 0, 1, 1)), leaf("b", sp(1, 3, 1, 4))];
    assert_eq!(to_string(&toks), "a  b");
}

#[test]
fn layout_line_break_then_columns() {
    // A line apart and three columns past the end of the token before.
    let toks = vec![leaf("a", sp(1, 4, 1, 5)), leaf("b", sp(2, 8, 2, 9))];
    assert_eq!(to_string(&toks), "a\n   b");
}

#[test]
fn layout_group_between_delimiters() {
    let g = RawTok::Group {
        delim: Delim::Bracket,
        span: sp(1, 2, 1, 7),
        first: sp(1, 3, 1, 4),
        inner: vec![leaf("1", sp(1, 3, 1, 4)), leaf("2", sp(1, 5, 1, 6))],
    };
    let toks = vec![leaf("v", sp(1, 0, 1, 1)), g, leaf("!", sp(1, 7, 1, 8))];
    assert_eq!(to_string(&toks), "v [1 2]!");
    let none = RawTok::Group { delim: Delim::NoDelim, span: sp(1, 0, 1, 1), first: sp(1, 0, 1, 1), inner: vec![] };
    assert_eq!(to_string(&vec![none]), "\u{2205}\u{2205}");
}
