use f_string::text::is_whitespace;
use f_string::unindent::dedent;

#[test]
fn dedent_test() {
    assert_eq!(dedent("    a\n     b\n"), "a\n b\n");
}

#[test]
fn dedent_doc_example() {
    assert_eq!(
        dedent("\n    1st line\n      2nd line\n    3rd line\n"),
        "\n1st line\n  2nd line\n3rd line\n"
    );
}

#[test]
fn dedent_empty_and_blank() {
    assert_eq!(dedent(""), "");
    assert_eq!(dedent("\n"), "\n");
    assert_eq!(dedent("   "), "");
    assert_eq!(dedent("  \n  \n"), "\n\n");
}

#[test]
fn dedent_no_trailing_newline() {
    assert_eq!(dedent("  a\n  b"), "a\nb");
    assert_eq!(dedent("  a\n    b"), "a\n  b");
}

#[test]
fn dedent_crlf_lines() {
    assert_eq!(dedent("  a\r\n  b\r\n"), "a\nb\n");
    // A '\r' not followed by '\n' stays.
    assert_eq!(dedent("  a\r"), "a\r");
}

#[test]
fn dedent_blank_lines_become_empty() {
    assert_eq!(dedent("  a\n      \n  b"), "a\n\nb");
}

#[test]
fn dedent_tabs_and_spaces_mixed() {
    // A later line that differs from the prefix cuts it where they differ.
    assert_eq!(dedent("\t  a\n\t b"), " a\nb");
    assert_eq!(dedent("  a\n\tb"), "  a\n\tb");
}

#[test]
fn dedent_blank_line_that_disagrees_cuts_prefix() {
    // The blank line "\t" differs from the indentation "  " at its first
    // character, so nothing is removed; the blank line itself is emptied.
    assert_eq!(dedent("  a\n\t\n  b"), "  a\n\n  b");
}

#[test]
fn dedent_keeps_text_scenario() {
    let s = "   x y\n\t z \n  \u{3000}w";
    let keep = |t: &str| t.chars().filter(|c| !c.is_whitespace()).collect::<String>();
    assert_eq!(keep(&dedent(s)), keep(s));
}

#[test]
fn dedent_removes_longest_common_indentation() {
    // Every blank line agrees with the first indentation: the common
    // whitespace of the non-blank lines goes, and no more.
    assert_eq!(dedent("    a\n\n      b\n    c"), "a\n\n  b\nc");
}

#[test]
fn dedent_unicode_whitespace_prefix() {
    assert_eq!(dedent("\u{3000}a\n\u{3000}b"), "a\nb");
}

#[test]
fn is_whitespace_matches_std() {
    for u in 0u32..=0x10FFFF {
        if let Some(c) = char::from_u32(u) {
            assert_eq!(is_whitespace(c), c.is_whitespace(), "{:#x}", u);
        }
    }
}

#[test]
fn dedent_twice_is_dedent_once() {
    for s in ["    a\n      b\n\n    c", "  x\n", "a\n  b", "   \n  q\n    r  ", ""] {
        assert_eq!(dedent(&dedent(s)), dedent(s));
    }
}

#[test]
fn dedent_ignores_added_indentation() {
    let s = "  a\n\n    b\n  c";
    let s2 = "     a\n\n       b\n     c";
    assert_eq!(dedent(s2), dedent(s));
    assert_eq!(dedent(s), "a\n\n  b\nc");
}
