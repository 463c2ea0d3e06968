//! A minimal recursive tree of string-labelled nodes, together with a small
//! literal notation for writing a whole tree as one expression.
//!
//! The tree itself is [`tree::StrTree`]: a label and an ordered sequence of
//! children. The notation comes in two forms. The flat-list form is the
//! function [`tree::str_tree_simple`], which builds a node from a label and
//! already-built children. The nested-braces form is the function
//! [`parser::str_tree`], which reads a literal such as
//! `"a" => { "b", "c" => { "d" }, }` and builds the same structure, rejecting
//! malformed input with a [`parser::MalformedLiteral`] error.

pub mod laws;
pub mod lexer;
pub mod parser;
pub mod token;
pub mod tree;

pub use parser::str_tree;
pub use parser::MalformedLiteral;
pub use tree::str_tree_simple;
pub use tree::StrTree;
pub use tree::TreeView;
