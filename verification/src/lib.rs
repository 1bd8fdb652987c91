//! Python-like f-string formatting: the text logic behind the `t!`, `t_println!`
//! and `f!` expansions, over a plain model of Rust tokens.

pub mod text;
pub mod unindent;
pub mod tokens;
pub mod template;
pub mod fstring;
pub mod syntax;

pub use fstring::{f, take_content};
pub use template::{t, t_println};
pub use unindent::dedent;
