//! A front end for parenthesized prefix-notation arithmetic, such as
//! `(+ 100 (+ 300 400))`.
//!
//! Text becomes a tree in two steps:
//!
//! - [`tokenize`] splits the text into [`Token`]s. It never fails: a word
//!   that it cannot read becomes [`Token::Unrecognized`].
//! - [`ast`] reads a forest of [`TreeNode`]s off the front of the tokens
//!   and returns it with the tokens left over, or fails on a token that it
//!   cannot place.
//!
//! [`pretty`] renders a forest as indented lines.
//!
//! Each function is verified against a mathematical definition of its
//! result: [`lexer::lex`] for the tokens of a text, [`builder::build`] for
//! the forest of a token sequence, [`render::forest_lines`] for the lines of
//! a forest.

pub mod token;
pub mod lexer;
pub mod tree;
pub mod builder;
pub mod render;

pub use builder::{ast, ParseError};
pub use lexer::{tokenize, tokenize_operator};
pub use render::pretty;
pub use token::{Operator, Token};
pub use tree::{Tree, TreeNode};
