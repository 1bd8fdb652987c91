# f_string

Python-like f-string formatting for Rust, as a verified library.

`t!(Hello, {name}!)` reads its tokens as text with `{expr}` interpolations;
`f!("Hello, {name}!")` reads a string literal with `{expr}` placeholders and
`{{`/`}}` escapes. Both expand to `String::new()`, `String::from(..)` or
`format!(..)` (`t_println!` to the matching `println!` forms).

Layout:

- `src/` — the verified library (Verus):
  - `text.rs`: Unicode whitespace, moving text between `str`/`String` and `Vec<char>`;
  - `unindent.rs`: `dedent`, with the laws that it removes whitespace only, that
    it removes the same whitespace prefix from every non-blank line, and that
    this prefix is the longest common indentation of the non-blank lines when
    each blank line after the first non-blank one agrees with that line's
    indentation (a blank line such as `"\t"` among lines indented by spaces cuts
    the prefix short); and, for text whose whitespace is spaces and line
    breaks, that it is idempotent and ignores indentation added to every
    non-blank line;
  - `tokens.rs`: a plain model of tokens with source positions, and the layout
    of token text from those positions;
  - `template.rs`: reading `t!` input into a template and its arguments, and
    choosing the expansion (for `t_println!`, text without arguments is a
    `println!` format string, its braces doubled);
  - `fstring.rs`: reading `f!` format strings and choosing the expansion
    (`f_literal` parses each placeholder with `syn` and passes the specs on);
  - `syntax.rs`: the calls into `syn` and `proc_macro2`, and reading the
    macro input with them: `read_t` reads `t!` input as `syn`'s parse stream
    sees it (parenthesis and bracket groups read again, brace groups parsed
    as an expression with an optional `:` and format spec, the `k`-th in
    source order naming the `k`-th argument; invisible groups read through
    where `syn` does; a lifetime as one token), and `f_input` takes the `f!`
    string literal and expands it with `f_literal`.
- `app/` — the macro entry points: handing the macro input to the library and
  writing the expansion with `quote`.
- `tests/` — tests of the library, lexing macro input with `proc_macro2`.
