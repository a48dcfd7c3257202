//! Front end of a small C-like language: one `int main() { ... }` whose body
//! declares integer variables, assigns to them and returns.
//!
//! [`comment_remover`] takes the comments out of a source text. [`parser`]
//! turns the text into the tree of [`grammar`]. The passes under
//! [`analyzer`] hold a tree to the rules of the language: the range of its
//! integer literals, the declaration and initialisation of its variables,
//! the presence of a `return`. Some of them work on the tree of
//! [`grammar`]; others on a plain [`tree`] of a source that was parsed
//! elsewhere, which may hold syntax errors, and say what they find as
//! [`diagnostics`].

pub mod analyzer;
pub mod comment_remover;
pub mod diagnostics;
pub mod grammar;
pub mod parser;
pub mod source;
pub mod tree;
